//! Surface and buffer lifecycle: create the layer surface, hold the frames the
//! renderer draws into, and hand each one to the compositor.
//!
//! The launcher draws in software into shared memory, so a frame is a memfd
//! mapped on both sides. The compositor keeps reading a buffer after the commit
//! that showed it, until it says wl_buffer.release. Two frames are kept and
//! drawn into in turn: draw into the one the compositor is not holding, show it,
//! and the other comes free while this one is on screen.
//!
//! Painting over the buffer being scanned out is what a single frame would mean,
//! and the compositor is within its rights to display the half-painted result.
use vstd::prelude::*;

use crate::ids;
use crate::ids::{IdAllocator, IdsView};
use crate::platform::arena::ArrayVec;
use crate::platform::conn;
use crate::platform::conn::{ConnView, Connection, Out};
use crate::platform::error::{Error, Result};
use crate::platform::protocol::{
    KeyboardInteractivity, Layer, ShmFormat, ANCHOR_TOP, BUFFER_DESTROY,
    COMPOSITOR_CREATE_SURFACE, LAYER_SHELL_GET_LAYER_SURFACE, LAYER_SURFACE_SET_ANCHOR,
    LAYER_SURFACE_SET_EXCLUSIVE_ZONE, LAYER_SURFACE_SET_KEYBOARD_INTERACTIVITY,
    LAYER_SURFACE_SET_MARGIN, LAYER_SURFACE_SET_SIZE, SHM_CREATE_POOL, SHM_POOL_CREATE_BUFFER,
    SHM_POOL_DESTROY, SURFACE_ATTACH, SURFACE_COMMIT, SURFACE_DAMAGE,
};
use crate::platform::syscall::RawFd;
use crate::platform::wire;
use crate::platform::wire::Arg;
use crate::shm;
use crate::shm::PixelBuffer;

verus! {

/// Frames drawn into in turn. Two is the minimum that lets the renderer touch
/// one while the compositor holds the other, and a launcher has no use for a
/// deeper queue.
pub const FRAMES: usize = 2;

/// Most buffers retired (awaiting release) at once. A resize retires one, and
/// the compositor releases it a frame later, so this is far above what a burst
/// of resizes can leave outstanding.
pub const MAX_RETIRED: usize = 8;

/// Upper bound on a surface dimension accepted from a configure event. A buggy
/// or hostile compositor could otherwise echo an enormous size; the buffer math
/// is checked, but capping here keeps a usable surface instead of an error.
pub const MAX_SURFACE_DIM: u32 = 16384;

/// The layer surface the launcher paints on.
#[derive(Debug, Clone, Copy, PartialEq, Eq, Structural)]
pub struct Surface {
    pub id: u32,
    pub layer_surface_id: u32,
    pub configured: bool,
    pub width: u32,
    pub height: u32,
}

/// One shared-memory frame, with the protocol objects that expose it.
pub struct Frame {
    pub pixels: PixelBuffer,
    pub pool_id: u32,
    pub buffer_id: u32,
    /// True from the commit that shows this frame until the compositor releases
    /// it. Drawing into it in the meantime paints over what is on screen.
    pub held: bool,
}

/// What a frame is: what was drawn into it, and what it is to the compositor.
#[verifier::ext_equal]
pub struct FrameView {
    pub pixels: Seq<u32>,
    pub shared: RawFd,
    pub width: u32,
    pub height: u32,
    pub stride: u32,
    pub pool_id: u32,
    pub buffer_id: u32,
    pub held: bool,
}

impl View for Frame {
    type V = FrameView;

    open spec fn view(&self) -> FrameView {
        FrameView {
            pixels: self.pixels.pixels@,
            shared: self.pixels.shared,
            width: self.pixels.width,
            height: self.pixels.height,
            stride: self.pixels.stride,
            pool_id: self.pool_id,
            buffer_id: self.buffer_id,
            held: self.held,
        }
    }
}

/// A frame retired by a resize, kept mapped until the compositor releases it.
/// Unmapping sooner would pull memory out from under a compositor that is still
/// scanning it out.
#[derive(Debug, Clone, Copy, PartialEq, Eq, Structural)]
pub struct Retired {
    pub pool_id: u32,
    pub buffer_id: u32,
    pub shared: RawFd,
}

/// The surface, its frames, and the frames waiting to die.
pub struct Present {
    pub surface: Option<Surface>,
    pub frames: ArrayVec<Frame, FRAMES>,
    /// The frame the renderer draws into next.
    pub current: usize,
    pub retired: ArrayVec<Retired, MAX_RETIRED>,
    /// The shared memory nobody uses any more, to be unmapped and closed.
    pub gone: Vec<RawFd>,
}

/// What the surface and its frames are.
#[verifier::ext_equal]
pub struct PresentView {
    pub surface: Option<Surface>,
    pub frames: Seq<FrameView>,
    pub current: int,
    pub retired: Seq<Retired>,
    pub gone: Seq<RawFd>,
}

/// What frames are.
pub open spec fn frame_views(f: Seq<Frame>) -> Seq<FrameView> {
    Seq::new(f.len(), |i: int| f[i]@)
}

impl View for Present {
    type V = PresentView;

    open spec fn view(&self) -> PresentView {
        PresentView {
            surface: self.surface,
            frames: frame_views(self.frames@),
            current: self.current as int,
            retired: self.retired@,
            gone: self.gone@,
        }
    }
}

/// The requests that create the layer surface.
pub open spec fn surface_script(
    compositor: u32,
    layer_shell: u32,
    surface: u32,
    layer_surface: u32,
    interactivity: KeyboardInteractivity,
    width: u32,
    height: u32,
) -> Seq<Out> {
    seq![
        Out::Msg(
            wire::message_bytes(compositor, COMPOSITOR_CREATE_SURFACE, seq![Arg::NewId(surface)]),
        ),
        Out::Msg(
            wire::message_bytes(
                layer_shell,
                LAYER_SHELL_GET_LAYER_SURFACE,
                seq![
                    Arg::NewId(layer_surface),
                    Arg::Object(surface),
                    Arg::Object(0),
                    Arg::Uint(Layer::Overlay.spec_value()),
                    Arg::Str("bnklaunch"),
                ],
            ),
        ),
        Out::Msg(
            wire::message_bytes(
                layer_surface,
                LAYER_SURFACE_SET_SIZE,
                seq![Arg::Uint(width), Arg::Uint(height)],
            ),
        ),
        Out::Msg(
            wire::message_bytes(layer_surface, LAYER_SURFACE_SET_ANCHOR, seq![Arg::Uint(ANCHOR_TOP)]),
        ),
        Out::Msg(
            wire::message_bytes(
                layer_surface,
                LAYER_SURFACE_SET_MARGIN,
                seq![Arg::Int(350), Arg::Int(0), Arg::Int(0), Arg::Int(0)],
            ),
        ),
        Out::Msg(
            wire::message_bytes(
                layer_surface,
                LAYER_SURFACE_SET_EXCLUSIVE_ZONE,
                seq![Arg::Int((-1) as i32)],
            ),
        ),
        Out::Msg(
            wire::message_bytes(
                layer_surface,
                LAYER_SURFACE_SET_KEYBOARD_INTERACTIVITY,
                seq![Arg::Uint(interactivity.spec_value())],
            ),
        ),
        Out::Msg(wire::message_bytes(surface, SURFACE_COMMIT, Seq::<Arg<'static>>::empty())),
        Out::Flush,
    ]
}

/// The requests that show a frame.
pub open spec fn commit_script(surface: Surface, buffer: u32) -> Seq<Out> {
    seq![
        Out::Msg(
            wire::message_bytes(
                surface.id,
                SURFACE_ATTACH,
                seq![Arg::Object(buffer), Arg::Int(0), Arg::Int(0)],
            ),
        ),
        Out::Msg(
            wire::message_bytes(
                surface.id,
                SURFACE_DAMAGE,
                seq![
                    Arg::Int(0),
                    Arg::Int(0),
                    Arg::Int(surface.width as i32),
                    Arg::Int(surface.height as i32),
                ],
            ),
        ),
        Out::Msg(wire::message_bytes(surface.id, SURFACE_COMMIT, Seq::<Arg<'static>>::empty())),
        Out::Flush,
    ]
}

/// The requests that destroy a buffer and its pool.
pub open spec fn destroy_script(buffer: u32, pool: u32) -> Seq<Out> {
    seq![
        Out::Msg(wire::message_bytes(buffer, BUFFER_DESTROY, Seq::<Arg<'static>>::empty())),
        Out::Msg(wire::message_bytes(pool, SHM_POOL_DESTROY, Seq::<Arg<'static>>::empty())),
    ]
}

/// The request that shares a frame's memory.
pub open spec fn pool_message(shm: u32, pool: u32, size: int) -> Seq<u8> {
    wire::message_bytes(shm, SHM_CREATE_POOL, seq![Arg::NewId(pool), Arg::Int(size as i32)])
}

/// The request that makes a buffer of a frame's memory.
pub open spec fn buffer_message(pool: u32, buffer: u32, width: u32, height: u32) -> Seq<u8> {
    wire::message_bytes(
        pool,
        SHM_POOL_CREATE_BUFFER,
        seq![
            Arg::NewId(buffer),
            Arg::Int(0),
            Arg::Int(width as i32),
            Arg::Int(height as i32),
            Arg::Int(((width * 4) as u32) as i32),
            Arg::Uint(ShmFormat::Argb8888.spec_value()),
        ],
    )
}

/// A fresh frame: nothing drawn into it, and not held.
pub open spec fn fresh_frame(
    width: u32,
    height: u32,
    shared: RawFd,
    pool: u32,
    buffer: u32,
) -> FrameView {
    FrameView {
        pixels: Seq::new((width * height) as nat, |i: int| 0u32),
        shared,
        width,
        height,
        stride: (width * 4) as u32,
        pool_id: pool,
        buffer_id: buffer,
        held: false,
    }
}

/// What creating a frame does to the connection and the ids, and the frame.
pub open spec fn created_frame(
    c: ConnView,
    ids: IdsView,
    shm: u32,
    width: u32,
    height: u32,
    shared: RawFd,
) -> (ConnView, IdsView, core::result::Result<FrameView, Error>) {
    let size = width * 4 * height;
    let pool = ids.id();
    let buffer = ids.taken().id();
    if !shm::dimensions_fit(width, height) {
        (c, ids, Err(Error::of_msg("buffer dimensions too large")))
    } else if size > i32::MAX {
        (c, ids, Err(Error::of_msg("buffer too large for a wl_shm pool")))
    } else {
        match c.put(Out::WithFds(pool_message(shm, pool, size), seq![shared])) {
            None => (c.flushed(), ids.taken(), Err(conn::full())),
            Some(c1) => match c1.put(Out::Msg(buffer_message(pool, buffer, width, height))) {
                None => (c1, ids.taken().taken(), Err(conn::full())),
                Some(c2) => (
                    c2,
                    ids.taken().taken(),
                    Ok(fresh_frame(width, height, shared, pool, buffer)),
                ),
            },
        }
    }
}

impl Frame {
    /// Allocate a frame over the shared memory behind a descriptor.
    pub fn create(
        conn: &mut Connection,
        ids: &mut IdAllocator,
        shm_id: u32,
        width: u32,
        height: u32,
        shared: RawFd,
    ) -> (r: Result<Frame>)
        requires
            old(conn).wf(),
            old(ids).wf(),
            old(ids)@.room(2),
        ensures
            final(conn).wf(),
            final(ids).wf(),
            ({
                let (c, i, f) = created_frame(old(conn)@, old(ids)@, shm_id, width, height, shared);
                &&& final(conn)@ == c
                &&& final(ids)@ == i
                &&& match f {
                    Ok(f) => r matches Ok(frame) && frame@ == f && frame.pixels.wf(),
                    Err(e) => r == Err::<Frame, Error>(e),
                }
            }),
    {
        let mut pixels = PixelBuffer::new(width, height)?;
        pixels.share(shared);
        let size: usize = pixels.size();
        assert(size == width * 4 * height);
        if size > i32::MAX as usize {
            return Err(Error::msg("buffer too large for a wl_shm pool"));
        }
        let pool_id: u32 = ids.allocate();
        let args = [Arg::NewId(pool_id), Arg::Int(size as i32)];
        assert(args@ =~= seq![Arg::NewId(pool_id), Arg::Int(size as i32)]);
        let fds = [shared];
        assert(fds@ =~= seq![shared]);
        conn.request_with_fd(shm_id, SHM_CREATE_POOL, &args, &fds)?;
        let buffer_id: u32 = ids.allocate();
        let stride: i32 = pixels.stride as i32;
        let args = [
            Arg::NewId(buffer_id),
            Arg::Int(0),
            Arg::Int(width as i32),
            Arg::Int(height as i32),
            Arg::Int(stride),
            Arg::Uint(ShmFormat::Argb8888.value()),
        ];
        assert(args@ =~= seq![
            Arg::NewId(buffer_id),
            Arg::Int(0),
            Arg::Int(width as i32),
            Arg::Int(height as i32),
            Arg::Int(((width * 4) as u32) as i32),
            Arg::Uint(ShmFormat::Argb8888.spec_value()),
        ]);
        conn.request(pool_id, SHM_POOL_CREATE_BUFFER, &args)?;
        let frame = Frame { pixels, pool_id, buffer_id, held: false };
        assert(frame@ =~= fresh_frame(width, height, shared, pool_id, buffer_id));
        Ok(frame)
    }
}

impl PresentView {
    /// The frames, live and retired, are few enough, and the one to draw into next
    /// is counted from the first.
    pub open spec fn wf(self) -> bool {
        &&& self.frames.len() <= FRAMES
        &&& self.retired.len() <= MAX_RETIRED
        &&& 0 <= self.current
    }

    /// Whether the next frame to draw into is free.
    pub open spec fn is_ready(self) -> bool {
        self.current < self.frames.len() && !self.frames[self.current].held
    }

    /// What creating the layer surface does.
    pub open spec fn with_surface(
        self,
        c: ConnView,
        ids: IdsView,
        compositor: u32,
        layer_shell: u32,
        interactivity: KeyboardInteractivity,
        width: u32,
        height: u32,
    ) -> (PresentView, ConnView, IdsView, bool) {
        let id = ids.id();
        let layer_surface_id = ids.taken().id();
        let script = surface_script(
            compositor,
            layer_shell,
            id,
            layer_surface_id,
            interactivity,
            width,
            height,
        );
        let (after, ok) = c.put_all(script);
        if ok {
            (
                PresentView {
                    surface: Some(
                        Surface { id, layer_surface_id, configured: false, width, height },
                    ),
                    ..self
                },
                after,
                ids.taken().taken(),
                true,
            )
        } else if c.put(script[0]) is Some {
            (self, after, ids.taken().taken(), false)
        } else {
            // The id of the layer surface is only taken once the surface's
            // request fits.
            (self, after, ids.taken(), false)
        }
    }

    /// With a frame added.
    pub open spec fn with_frame(self, f: FrameView) -> PresentView {
        PresentView { frames: self.frames.push(f), ..self }
    }

    /// With some memory nobody uses any more.
    pub open spec fn with_gone(self, fd: RawFd) -> PresentView {
        PresentView { gone: self.gone.push(fd), ..self }
    }

    /// With every frame dropped, the first to draw into next.
    pub open spec fn cleared(self) -> PresentView {
        PresentView {
            frames: Seq::empty(),
            current: 0,
            gone: self.gone + shared_of(self.frames),
            ..self
        }
    }

    /// What allocating frames over these descriptors does, one after the other
    /// until one fails. The memory of a frame that is not kept is gone.
    pub open spec fn with_frames(
        self,
        c: ConnView,
        ids: IdsView,
        shm: u32,
        shared: Seq<RawFd>,
        i: int,
    ) -> (PresentView, ConnView, IdsView, core::result::Result<(), Error>)
        decreases shared.len() - i,
    {
        if i >= shared.len() {
            (self, c.flushed(), ids, Ok(()))
        } else {
            let s = self.surface->0;
            match created_frame(c, ids, shm, s.width, s.height, shared[i]) {
                (c1, ids1, Ok(f)) => self.with_frame(f).with_frames(c1, ids1, shm, shared, i + 1),
                (c1, ids1, Err(e)) => (self.with_gone(shared[i]), c1, ids1, Err(e)),
            }
        }
    }

    /// What allocating the frames for the current surface does.
    pub open spec fn with_new_frames(self, c: ConnView, ids: IdsView, shm: u32, shared: Seq<RawFd>) -> (
        PresentView,
        ConnView,
        IdsView,
        core::result::Result<(), Error>,
    ) {
        if self.surface is None {
            (self, c, ids, Err(Error::of_msg("no surface")))
        } else {
            self.cleared().with_frames(c, ids, shm, shared, 0)
        }
    }

    /// What showing the frame just drawn does.
    pub open spec fn committed(self, c: ConnView) -> (
        PresentView,
        ConnView,
        core::result::Result<(), Error>,
    ) {
        if self.surface is None {
            (self, c, Err(Error::of_msg("no surface")))
        } else if !self.is_ready() {
            (self, c, Err(Error::of_msg("no frame to commit")))
        } else {
            let f = self.frames[self.current];
            let (after, ok) = c.put_all(commit_script(self.surface->0, f.buffer_id));
            if ok {
                (
                    PresentView {
                        frames: self.frames.update(self.current, FrameView { held: true, ..f }),
                        current: (self.current + 1) % (self.frames.len() as int),
                        ..self
                    },
                    after,
                    Ok(()),
                )
            } else {
                (self, after, Err(conn::full()))
            }
        }
    }

    /// The live frame with a buffer id, or the number of frames.
    pub open spec fn frame_with(self, buffer: u32, i: int) -> int
        decreases self.frames.len() - i,
    {
        if i >= self.frames.len() {
            self.frames.len() as int
        } else if self.frames[i].buffer_id == buffer {
            i
        } else {
            self.frame_with(buffer, i + 1)
        }
    }

    /// The retired frame with a buffer id, or the number of them.
    pub open spec fn retired_with(self, buffer: u32, i: int) -> int
        decreases self.retired.len() - i,
    {
        if i >= self.retired.len() {
            self.retired.len() as int
        } else if self.retired[i].buffer_id == buffer {
            i
        } else {
            self.retired_with(buffer, i + 1)
        }
    }

    /// Whether a buffer is one of ours.
    pub open spec fn owns(self, buffer: u32) -> bool {
        self.frame_with(buffer, 0) < self.frames.len() || self.retired_with(buffer, 0)
            < self.retired.len()
    }

    /// What the compositor letting a buffer go does. A live frame is free to
    /// draw into again; a retired one is destroyed and its memory gone.
    pub open spec fn released(self, c: ConnView, buffer: u32) -> (
        PresentView,
        ConnView,
        core::result::Result<bool, Error>,
    ) {
        let i = self.frame_with(buffer, 0);
        let j = self.retired_with(buffer, 0);
        if i < self.frames.len() {
            (
                PresentView {
                    frames: self.frames.update(i, FrameView { held: false, ..self.frames[i] }),
                    ..self
                },
                c,
                Ok(true),
            )
        } else if j < self.retired.len() {
            let r = self.retired[j];
            let (after, ok) = c.put_all(
                destroy_script(r.buffer_id, r.pool_id).push(Out::Flush),
            );
            (
                PresentView {
                    retired: self.retired.update(j, self.retired.last()).drop_last(),
                    ..self
                }.with_gone(r.shared),
                after,
                if ok {
                    Ok(true)
                } else {
                    Err(conn::full())
                },
            )
        } else {
            (self, c, Ok(false))
        }
    }

    /// What retiring every frame does, the last one first. One the compositor
    /// never held is destroyed at once; a held one waits for its release.
    pub open spec fn all_retired(self, c: ConnView) -> (
        PresentView,
        ConnView,
        core::result::Result<(), Error>,
    )
        decreases self.frames.len(),
    {
        if self.frames.len() == 0 {
            (self, c, Ok(()))
        } else {
            let f = self.frames.last();
            let rest = PresentView { frames: self.frames.drop_last(), ..self };
            if !f.held {
                let (after, ok) = c.put_all(destroy_script(f.buffer_id, f.pool_id));
                if ok {
                    rest.with_gone(f.shared).all_retired(after)
                } else {
                    (rest.with_gone(f.shared), after, Err(conn::full()))
                }
            } else if self.retired.len() < MAX_RETIRED {
                PresentView {
                    retired: self.retired.push(
                        Retired { pool_id: f.pool_id, buffer_id: f.buffer_id, shared: f.shared },
                    ),
                    ..rest
                }.all_retired(c)
            } else {
                (
                    rest.with_gone(f.shared),
                    c,
                    Err(Error::of_msg("too many buffers awaiting release")),
                )
            }
        }
    }

    /// What resizing the frames does: retire every one, and allocate a fresh set.
    pub open spec fn resized(self, c: ConnView, ids: IdsView, shm: u32, shared: Seq<RawFd>) -> (
        PresentView,
        ConnView,
        IdsView,
        core::result::Result<(), Error>,
    ) {
        match self.all_retired(c) {
            (p, c1, Ok(_)) => p.with_new_frames(c1, ids, shm, shared),
            (p, c1, Err(e)) => (p, c1, ids, Err(e)),
        }
    }
}

/// The shared memory of frames.
pub open spec fn shared_of(f: Seq<FrameView>) -> Seq<RawFd> {
    Seq::new(f.len(), |i: int| f[i].shared)
}

/// Ask the compositor to destroy a buffer and its pool.
fn destroy(conn: &mut Connection, buffer_id: u32, pool_id: u32) -> (r: Result<()>)
    requires
        old(conn).wf(),
    ensures
        final(conn).wf(),
        final(conn)@ == old(conn)@.put_all(destroy_script(buffer_id, pool_id)).0,
        r == if old(conn)@.put_all(destroy_script(buffer_id, pool_id)).1 {
            Ok::<(), Error>(())
        } else {
            Err::<(), Error>(conn::full())
        },
{
    let ghost c0 = conn@;
    let ghost script = destroy_script(buffer_id, pool_id);
    let none: [Arg<'static>; 0] = [];
    assert(none@ =~= Seq::<Arg<'static>>::empty());
    conn.request(buffer_id, BUFFER_DESTROY, &none)?;
    assert(c0.put_all(script) == conn@.put_from(script, 1));
    conn.request(pool_id, SHM_POOL_DESTROY, &none)?;
    assert(c0.put_all(script) == conn@.put_from(script, 2));
    Ok(())
}

impl Present {
    pub open spec fn wf(&self) -> bool {
        &&& self.frames.wf()
        &&& self.retired.wf()
        &&& forall|i: int| 0 <= i < self.frames@.len() ==> (#[trigger] self.frames@[i]).pixels.wf()
    }

    pub fn new() -> (r: Self)
        ensures
            r.wf(),
            r@ == (PresentView {
                surface: None,
                frames: Seq::empty(),
                current: 0,
                retired: Seq::empty(),
                gone: Seq::empty(),
            }),
    {
        let r = Present {
            surface: None,
            frames: ArrayVec::new(),
            current: 0,
            retired: ArrayVec::new(),
            gone: Vec::new(),
        };
        assert(r@.frames =~= Seq::<FrameView>::empty());
        r
    }

    /// Create the layer surface: a wl_surface promoted to an overlay that sits
    /// above ordinary windows, anchored near the top of the screen.
    ///
    /// It is anchored to the top edge and then pushed down by the margin, so the
    /// launcher sits in the upper third rather than dead centre. The exclusive
    /// zone of -1 ignores the zones panels reserve, so the overlay lies over them
    /// rather than below. The compositor answers the commit with a configure
    /// carrying the size to draw at; the frames are allocated then.
    pub fn create_surface(
        &mut self,
        conn: &mut Connection,
        ids: &mut IdAllocator,
        compositor_id: u32,
        layer_shell_id: u32,
        interactivity: KeyboardInteractivity,
        width: u32,
        height: u32,
    ) -> (r: Result<()>)
        requires
            old(self).wf(),
            old(conn).wf(),
            old(ids).wf(),
            old(ids)@.room(2),
        ensures
            final(self).wf(),
            final(conn).wf(),
            final(ids).wf(),
            ({
                let (p, c, i, ok) = old(self)@.with_surface(
                    old(conn)@,
                    old(ids)@,
                    compositor_id,
                    layer_shell_id,
                    interactivity,
                    width,
                    height,
                );
                &&& final(self)@ == p
                &&& final(conn)@ == c
                &&& final(ids)@ == i
                &&& ok ==> r == Ok::<(), Error>(())
                &&& !ok ==> r == Err::<(), Error>(conn::full())
            }),
    {
        let ghost c0 = conn@;
        let ghost ids0 = ids@;
        let surface_id: u32 = ids.allocate();
        let ghost script = surface_script(
            compositor_id,
            layer_shell_id,
            surface_id,
            ids0.taken().id(),
            interactivity,
            width,
            height,
        );
        let args = [Arg::NewId(surface_id)];
        assert(args@ =~= seq![Arg::NewId(surface_id)]);
        conn.request(compositor_id, COMPOSITOR_CREATE_SURFACE, &args)?;
        assert(c0.put_all(script) == conn@.put_from(script, 1));
        let layer_surface_id: u32 = ids.allocate();
        // A null output (0) lets the compositor choose.
        let args = [
            Arg::NewId(layer_surface_id),
            Arg::Object(surface_id),
            Arg::Object(0),
            Arg::Uint(Layer::Overlay.value()),
            Arg::Str("bnklaunch"),
        ];
        assert(args@ =~= seq![
            Arg::NewId(layer_surface_id),
            Arg::Object(surface_id),
            Arg::Object(0),
            Arg::Uint(Layer::Overlay.spec_value()),
            Arg::Str("bnklaunch"),
        ]);
        conn.request(layer_shell_id, LAYER_SHELL_GET_LAYER_SURFACE, &args)?;
        assert(c0.put_all(script) == conn@.put_from(script, 2));
        let args = [Arg::Uint(width), Arg::Uint(height)];
        assert(args@ =~= seq![Arg::Uint(width), Arg::Uint(height)]);
        conn.request(layer_surface_id, LAYER_SURFACE_SET_SIZE, &args)?;
        assert(c0.put_all(script) == conn@.put_from(script, 3));
        let args = [Arg::Uint(ANCHOR_TOP)];
        assert(args@ =~= seq![Arg::Uint(ANCHOR_TOP)]);
        conn.request(layer_surface_id, LAYER_SURFACE_SET_ANCHOR, &args)?;
        assert(c0.put_all(script) == conn@.put_from(script, 4));
        let args = [Arg::Int(350), Arg::Int(0), Arg::Int(0), Arg::Int(0)];
        assert(args@ =~= seq![Arg::Int(350), Arg::Int(0), Arg::Int(0), Arg::Int(0)]);
        conn.request(layer_surface_id, LAYER_SURFACE_SET_MARGIN, &args)?;
        assert(c0.put_all(script) == conn@.put_from(script, 5));
        let args = [Arg::Int(-1)];
        assert(args@ =~= seq![Arg::Int((-1) as i32)]);
        conn.request(layer_surface_id, LAYER_SURFACE_SET_EXCLUSIVE_ZONE, &args)?;
        assert(c0.put_all(script) == conn@.put_from(script, 6));
        let args = [Arg::Uint(interactivity.value())];
        assert(args@ =~= seq![Arg::Uint(interactivity.spec_value())]);
        conn.request(layer_surface_id, LAYER_SURFACE_SET_KEYBOARD_INTERACTIVITY, &args)?;
        assert(c0.put_all(script) == conn@.put_from(script, 7));
        let none: [Arg<'static>; 0] = [];
        assert(none@ =~= Seq::<Arg<'static>>::empty());
        conn.request(surface_id, SURFACE_COMMIT, &none)?;
        assert(c0.put_all(script) == conn@.put_from(script, 8));
        self.surface = Some(
            Surface { id: surface_id, layer_surface_id, configured: false, width, height },
        );
        conn.flush();
        assert(c0.put_all(script) == conn@.put_from(script, 9));
        Ok(())
    }

    /// Drop every frame.
    fn clear(&mut self)
        requires
            old(self).wf(),
        ensures
            final(self).wf(),
            final(self)@ == old(self)@.cleared(),
            final(self).frames@.len() == 0,
    {
        let ghost before = self@;
        let mut i: usize = 0;
        while i < self.frames.len()
            invariant
                i <= self.frames@.len(),
                self.wf(),
                before == old(self)@,
                self@ == (PresentView {
                    gone: before.gone + shared_of(before.frames).take(i as int),
                    ..before
                }),
            decreases self.frames@.len() - i,
        {
            let ghost gone = self.gone@;
            let fd: RawFd = self.frames.as_slice()[i].pixels.fd();
            assert(before.frames[i as int] == self.frames@[i as int]@);
            self.gone.push(fd);
            assert(shared_of(before.frames).take(i + 1) =~= shared_of(before.frames).take(
                i as int,
            ).push(fd));
            assert(self.gone@ =~= before.gone + shared_of(before.frames).take(i + 1));
            i += 1;
        }
        assert(shared_of(before.frames).take(i as int) =~= shared_of(before.frames));
        self.frames.clear();
        self.current = 0;
        assert(self@.frames =~= Seq::<FrameView>::empty());
    }

    /// The size in bytes of each frame's shared memory, for the current surface.
    pub fn frame_size(&self) -> (r: Result<usize>)
        ensures
            match self@.surface {
                None => r == Err::<usize, Error>(Error::of_msg("no surface")),
                Some(s) => if shm::dimensions_fit(s.width, s.height) {
                    r == Ok::<usize, Error>((s.width * 4 * s.height) as usize)
                } else {
                    r == Err::<usize, Error>(Error::of_msg("buffer dimensions too large"))
                },
            },
    {
        match self.surface {
            None => Err(Error::msg("no surface")),
            Some(s) => shm::buffer_size(s.width, s.height),
        }
    }

    /// Allocate the frames for the current surface size, each over the shared
    /// memory behind one of the descriptors.
    pub fn create_frames(
        &mut self,
        conn: &mut Connection,
        ids: &mut IdAllocator,
        shm_id: u32,
        shared: &[RawFd],
    ) -> (r: Result<()>)
        requires
            old(self).wf(),
            old(conn).wf(),
            old(ids).wf(),
            old(ids)@.room(4),
            shared@.len() == FRAMES,
        ensures
            final(self).wf(),
            final(conn).wf(),
            final(ids).wf(),
            (final(self)@, final(conn)@, final(ids)@, r) == old(self)@.with_new_frames(
                old(conn)@,
                old(ids)@,
                shm_id,
                shared@,
            ),
    {
        let surface = match self.surface {
            Some(s) => s,
            None => {
                return Err(Error::msg("no surface"));
            },
        };
        self.clear();
        let ghost p0 = self@;
        let ghost c0 = conn@;
        let ghost ids0 = ids@;
        let mut i: usize = 0;
        while i < shared.len()
            invariant
                i <= shared@.len() == FRAMES,
                self.wf(),
                conn.wf(),
                ids.wf(),
                ids@.room(4 - 2 * i),
                self.frames@.len() == i,
                self.surface == Some(surface),
                p0.with_frames(c0, ids0, shm_id, shared@, 0) == self@.with_frames(
                    conn@,
                    ids@,
                    shm_id,
                    shared@,
                    i as int,
                ),
                p0 == old(self)@.cleared(),
                old(self)@.surface is Some,
                c0 == old(conn)@,
                ids0 == old(ids)@,
            decreases shared@.len() - i,
        {
            let ghost p = self@;
            match Frame::create(conn, ids, shm_id, surface.width, surface.height, shared[i]) {
                Ok(frame) => {
                    let ghost f = frame@;
                    let _ = self.frames.push(frame);
                    assert(self@ =~= p.with_frame(f));
                },
                Err(e) => {
                    self.gone.push(shared[i]);
                    assert(self@ =~= p.with_gone(shared@[i as int]));
                    return Err(e);
                },
            }
            i += 1;
        }
        conn.flush();
        Ok(())
    }

    /// Whether the next frame to draw into is free. False means the compositor
    /// is still holding both, and the caller has to dispatch until it lets one
    /// go.
    pub fn ready(&self) -> (r: bool)
        requires
            self.wf(),
        ensures
            r == self@.is_ready(),
    {
        if self.current < self.frames.len() {
            assert(self@.frames[self.current as int] == self.frames@[self.current as int]@);
            !self.frames.as_slice()[self.current].held
        } else {
            false
        }
    }

    /// The buffer id of the frame the renderer draws into next, which is the id
    /// the compositor names when it releases that frame.
    pub fn current_buffer_id(&self) -> (r: Option<u32>)
        requires
            self.wf(),
        ensures
            r == if self@.current < self@.frames.len() {
                Some(self@.frames[self@.current].buffer_id)
            } else {
                None
            },
    {
        if self.current < self.frames.len() {
            assert(self@.frames[self.current as int] == self.frames@[self.current as int]@);
            Some(self.frames.as_slice()[self.current].buffer_id)
        } else {
            None
        }
    }

    /// The pixels of the frame being drawn into, if it is free to draw into.
    pub fn pixels(&mut self) -> (r: Option<&mut PixelBuffer>)
        requires
            old(self).wf(),
        ensures
            r is Some <==> old(self)@.is_ready(),
            r matches Some(b) ==> *b == old(self).frames@[old(self)@.current].pixels
                && final(self).frames@ == old(self).frames@.update(
                old(self)@.current,
                Frame { pixels: *final(b), ..old(self).frames@[old(self)@.current] },
            ),
            r is None ==> final(self).frames@ == old(self).frames@,
            final(self).surface == old(self).surface,
            final(self).current == old(self).current,
            final(self).retired@ == old(self).retired@,
            final(self).gone@ == old(self).gone@,
    {
        if !self.ready() {
            return None;
        }
        let current: usize = self.current;
        let frames = self.frames.as_mut_slice();
        Some(&mut frames[current].pixels)
    }

    /// Show the frame just drawn, and turn to the other one for the next.
    pub fn commit(&mut self, conn: &mut Connection) -> (r: Result<()>)
        requires
            old(self).wf(),
            old(conn).wf(),
        ensures
            final(self).wf(),
            final(conn).wf(),
            (final(self)@, final(conn)@, r) == old(self)@.committed(old(conn)@),
    {
        let surface = match self.surface {
            Some(s) => s,
            None => {
                return Err(Error::msg("no surface"));
            },
        };
        if !self.ready() {
            return Err(Error::msg("no frame to commit"));
        }
        let ghost p = self@;
        let ghost c0 = conn@;
        let current: usize = self.current;
        assert(p.frames[current as int] == self.frames@[current as int]@);
        let buffer_id: u32 = self.frames.as_slice()[current].buffer_id;
        let ghost script = commit_script(surface, buffer_id);
        let args = [Arg::Object(buffer_id), Arg::Int(0), Arg::Int(0)];
        assert(args@ =~= seq![Arg::Object(buffer_id), Arg::Int(0), Arg::Int(0)]);
        conn.request(surface.id, SURFACE_ATTACH, &args)?;
        assert(c0.put_all(script) == conn@.put_from(script, 1));
        let args = [
            Arg::Int(0),
            Arg::Int(0),
            Arg::Int(surface.width as i32),
            Arg::Int(surface.height as i32),
        ];
        assert(args@ =~= seq![
            Arg::Int(0),
            Arg::Int(0),
            Arg::Int(surface.width as i32),
            Arg::Int(surface.height as i32),
        ]);
        conn.request(surface.id, SURFACE_DAMAGE, &args)?;
        assert(c0.put_all(script) == conn@.put_from(script, 2));
        let none: [Arg<'static>; 0] = [];
        assert(none@ =~= Seq::<Arg<'static>>::empty());
        conn.request(surface.id, SURFACE_COMMIT, &none)?;
        assert(c0.put_all(script) == conn@.put_from(script, 3));
        conn.flush();
        assert(c0.put_all(script) == conn@.put_from(script, 4));
        self.hold(current, true);
        self.current = (current + 1) % self.frames.len();
        Ok(())
    }

    /// Note whether the compositor holds a frame.
    fn hold(&mut self, i: usize, held: bool)
        requires
            old(self).wf(),
            i < old(self).frames@.len(),
        ensures
            final(self).wf(),
            final(self)@ == (PresentView {
                frames: old(self)@.frames.update(
                    i as int,
                    FrameView { held, ..old(self)@.frames[i as int] },
                ),
                ..old(self)@
            }),
            final(self).frames@.len() == old(self).frames@.len(),
    {
        let ghost p = self@;
        assert(p.frames[i as int] == self.frames@[i as int]@);
        let frames = self.frames.as_mut_slice();
        frames[i].held = held;
        assert(self@.frames =~= p.frames.update(i as int, FrameView { held, ..p.frames[i as int] }));
    }

    /// A wl_buffer.release names a frame the compositor has finished with. False
    /// for an id naming neither a live frame nor a retired one: it is not ours,
    /// and there is nothing to do about it.
    pub fn release(&mut self, conn: &mut Connection, buffer_id: u32) -> (r: Result<bool>)
        requires
            old(self).wf(),
            old(conn).wf(),
        ensures
            final(self).wf(),
            final(conn).wf(),
            (final(self)@, final(conn)@, r) == old(self)@.released(old(conn)@, buffer_id),
    {
        let ghost p = self@;
        let mut i: usize = 0;
        while i < self.frames.len()
            invariant
                i <= self.frames@.len(),
                self == old(self),
                self.wf(),
                conn.wf(),
                conn@ == old(conn)@,
                p == self@,
                p.frame_with(buffer_id, 0) == p.frame_with(buffer_id, i as int),
            decreases self.frames@.len() - i,
        {
            assert(p.frames[i as int] == self.frames@[i as int]@);
            if self.frames.as_slice()[i].buffer_id == buffer_id {
                self.hold(i, false);
                return Ok(true);
            }
            i += 1;
        }
        // A retired frame's release is the last thing that has to happen before
        // its memory can go: the compositor is done scanning it out.
        let mut j: usize = 0;
        while j < self.retired.len()
            invariant
                j <= self.retired@.len(),
                self == old(self),
                self.wf(),
                conn.wf(),
                conn@ == old(conn)@,
                p == self@,
                p.frame_with(buffer_id, 0) == p.frames.len(),
                p.retired_with(buffer_id, 0) == p.retired_with(buffer_id, j as int),
            decreases self.retired@.len() - j,
        {
            let r = self.retired.as_slice()[j];
            if r.buffer_id == buffer_id {
                let _ = self.retired.swap_remove(j);
                self.gone.push(r.shared);
                let ghost c0 = conn@;
                let ghost script = destroy_script(r.buffer_id, r.pool_id);
                proof {
                    lemma_script_then_flush(c0, script, 0);
                }
                destroy(conn, r.buffer_id, r.pool_id)?;
                conn.flush();
                return Ok(true);
            }
            j += 1;
        }
        Ok(false)
    }

    /// Retire every frame. The held ones stay mapped until their release
    /// arrives.
    fn retire(&mut self, conn: &mut Connection) -> (r: Result<()>)
        requires
            old(self).wf(),
            old(conn).wf(),
        ensures
            final(self).wf(),
            final(conn).wf(),
            (final(self)@, final(conn)@, r) == old(self)@.all_retired(old(conn)@),
    {
        let ghost p0 = self@;
        let ghost c0 = conn@;
        while self.frames.len() > 0
            invariant
                self.wf(),
                conn.wf(),
                p0 == old(self)@,
                c0 == old(conn)@,
                p0.all_retired(c0) == self@.all_retired(conn@),
            decreases self.frames@.len(),
        {
            let ghost p = self@;
            let ghost n = self.frames@.len() as int;
            assert(p.frames.last() == self.frames@[n - 1]@);
            if let Some(frame) = self.frames.pop() {
                let ghost f = frame@;
                assert(self@.frames =~= p.frames.drop_last());
                let shared: RawFd = frame.pixels.fd();
                // A frame the compositor never held can be destroyed at once;
                // only a held one has to wait for its release.
                if !frame.held {
                    self.gone.push(shared);
                    destroy(conn, frame.buffer_id, frame.pool_id)?;
                } else {
                    let retired = Retired {
                        pool_id: frame.pool_id,
                        buffer_id: frame.buffer_id,
                        shared,
                    };
                    if self.retired.push(retired).is_err() {
                        // The bound is far above what a burst of resizes can
                        // produce. Dropping one here would orphan both protocol
                        // objects, so say so rather than leak them quietly.
                        self.gone.push(shared);
                        return Err(Error::msg("too many buffers awaiting release"));
                    }
                }
            }
        }
        Ok(())
    }

    /// Retire every frame and allocate a fresh set at the new size. The old ones
    /// stay mapped until their release arrives.
    pub fn resize_frames(
        &mut self,
        conn: &mut Connection,
        ids: &mut IdAllocator,
        shm_id: u32,
        shared: &[RawFd],
    ) -> (r: Result<()>)
        requires
            old(self).wf(),
            old(conn).wf(),
            old(ids).wf(),
            old(ids)@.room(4),
            shared@.len() == FRAMES,
        ensures
            final(self).wf(),
            final(conn).wf(),
            final(ids).wf(),
            (final(self)@, final(conn)@, final(ids)@, r) == old(self)@.resized(
                old(conn)@,
                old(ids)@,
                shm_id,
                shared@,
            ),
    {
        self.retire(conn)?;
        self.create_frames(conn, ids, shm_id, shared)
    }

    /// Take the shared memory nobody uses any more, to unmap and close it.
    pub fn take_gone(&mut self) -> (r: Vec<RawFd>)
        requires
            old(self).wf(),
        ensures
            final(self).wf(),
            r@ == old(self)@.gone,
            final(self)@ == (PresentView { gone: Seq::empty(), ..old(self)@ }),
    {
        let mut out: Vec<RawFd> = Vec::new();
        std::mem::swap(&mut out, &mut self.gone);
        out
    }
}

proof fn lemma_script_then_flush(c: ConnView, script: Seq<Out>, i: int)
    requires
        0 <= i <= script.len(),
    ensures
        c.put_from(script.push(Out::Flush), i) == (if c.put_from(script, i).1 {
            (c.put_from(script, i).0.flushed(), true)
        } else {
            c.put_from(script, i)
        }),
    decreases script.len() - i,
{
    let all = script.push(Out::Flush);
    if i < script.len() {
        assert(all[i] == script[i]);
        match c.put(script[i]) {
            Some(c1) => lemma_script_then_flush(c1, script, i + 1),
            None => {},
        }
    } else {
        assert(all[i] == Out::Flush);
        reveal_with_fuel(ConnView::put_from, 2);
    }
}

/// A frame on screen is never drawn into: the one just shown is held, and the
/// one to draw into next is another, free exactly when it is not held itself.
pub proof fn law_a_shown_frame_is_not_drawn_into(p: PresentView, c: ConnView)
    requires
        p.wf(),
        p.frames.len() == FRAMES,
        p.current < p.frames.len(),
        p.committed(c).2 is Ok,
    ensures
        p.committed(c).0.frames[p.current].held,
        p.committed(c).0.current != p.current,
        p.committed(c).0.is_ready() == !p.frames[p.committed(c).0.current].held,
{
}

/// A release frees a frame to be drawn into: after the compositor lets go of the
/// frame to draw into next, that frame is ready.
pub proof fn law_a_release_frees_the_frame(p: PresentView, c: ConnView)
    requires
        p.wf(),
        p.current < p.frames.len(),
        p.frame_with(p.frames[p.current].buffer_id, 0) == p.current,
    ensures
        p.released(c, p.frames[p.current].buffer_id).0.is_ready(),
{
}

/// No buffer that is held goes away: a resize keeps each frame the compositor
/// still holds on the list of those awaiting release.
pub proof fn law_held_frames_await_release(p: PresentView, c: ConnView)
    requires
        p.wf(),
        p.all_retired(c).2 is Ok,
    ensures
        p.all_retired(c).0.frames.len() == 0,
        p.retired.is_prefix_of(p.all_retired(c).0.retired),
        forall|i: int|
            0 <= i < p.frames.len() && (#[trigger] p.frames[i]).held ==> p.all_retired(
                c,
            ).0.retired.contains(
                Retired {
                    pool_id: p.frames[i].pool_id,
                    buffer_id: p.frames[i].buffer_id,
                    shared: p.frames[i].shared,
                },
            ),
    decreases p.frames.len(),
{
    let after = p.all_retired(c).0;
    if p.frames.len() > 0 {
        let f = p.frames.last();
        let rest = PresentView { frames: p.frames.drop_last(), ..p };
        let kept = Retired { pool_id: f.pool_id, buffer_id: f.buffer_id, shared: f.shared };
        let (next, c1) = if !f.held {
            (
                rest.with_gone(f.shared),
                c.put_all(destroy_script(f.buffer_id, f.pool_id)).0,
            )
        } else {
            (PresentView { retired: p.retired.push(kept), ..rest }, c)
        };
        assert(p.all_retired(c) == next.all_retired(c1));
        law_held_frames_await_release(next, c1);
        assert(p.retired.is_prefix_of(next.retired));
        assert forall|i: int| 0 <= i < p.frames.len() && (#[trigger] p.frames[i]).held implies
            after.retired.contains(
            Retired {
                pool_id: p.frames[i].pool_id,
                buffer_id: p.frames[i].buffer_id,
                shared: p.frames[i].shared,
            },
        ) by {
            if i < p.frames.len() - 1 {
                assert(next.frames[i] == p.frames[i]);
            } else {
                assert(next.retired[next.retired.len() - 1] == kept);
                assert(after.retired[next.retired.len() - 1] == kept);
            }
        }
    }
}

/// What is kept of a frame until the compositor releases it.
pub open spec fn retired_of(f: FrameView) -> Retired {
    Retired { pool_id: f.pool_id, buffer_id: f.buffer_id, shared: f.shared }
}

/// The requests that destroy the frames the compositor does not hold, the last
/// one first.
pub open spec fn farewell(frames: Seq<FrameView>) -> Seq<Out>
    decreases frames.len(),
{
    if frames.len() == 0 {
        Seq::empty()
    } else {
        let f = frames.last();
        let rest = farewell(frames.drop_last());
        if f.held {
            rest
        } else {
            destroy_script(f.buffer_id, f.pool_id) + rest
        }
    }
}

/// What is kept of the frames the compositor holds, the last one first.
pub open spec fn awaiting(frames: Seq<FrameView>) -> Seq<Retired>
    decreases frames.len(),
{
    if frames.len() == 0 {
        Seq::empty()
    } else {
        let f = frames.last();
        let rest = awaiting(frames.drop_last());
        if f.held {
            seq![retired_of(f)] + rest
        } else {
            rest
        }
    }
}

/// The shared memory of the frames the compositor does not hold, the last one
/// first.
pub open spec fn let_go(frames: Seq<FrameView>) -> Seq<RawFd>
    decreases frames.len(),
{
    if frames.len() == 0 {
        Seq::empty()
    } else {
        let f = frames.last();
        let rest = let_go(frames.drop_last());
        if f.held {
            rest
        } else {
            seq![f.shared] + rest
        }
    }
}

/// The requests that make two fresh frames of a size.
pub open spec fn fresh_script(
    ids: IdsView,
    shm: u32,
    width: u32,
    height: u32,
    shared: Seq<RawFd>,
) -> Seq<Out> {
    let size = width * 4 * height;
    let (pool, buffer) = (ids.id(), ids.taken().id());
    let next = ids.taken().taken();
    let (next_pool, next_buffer) = (next.id(), next.taken().id());
    seq![
        Out::WithFds(pool_message(shm, pool, size), seq![shared[0]]),
        Out::Msg(buffer_message(pool, buffer, width, height)),
        Out::WithFds(pool_message(shm, next_pool, size), seq![shared[1]]),
        Out::Msg(buffer_message(next_pool, next_buffer, width, height)),
        Out::Flush,
    ]
}

/// The two fresh frames of a size.
pub open spec fn fresh_frames(
    ids: IdsView,
    width: u32,
    height: u32,
    shared: Seq<RawFd>,
) -> Seq<FrameView> {
    let next = ids.taken().taken();
    seq![
        fresh_frame(width, height, shared[0], ids.id(), ids.taken().id()),
        fresh_frame(width, height, shared[1], next.id(), next.taken().id()),
    ]
}

/// One script after another is the two end to end.
proof fn lemma_put_both(c: ConnView, a: Seq<Out>, b: Seq<Out>, i: int)
    requires
        0 <= i <= a.len(),
    ensures
        c.put_from(a + b, i) == (if c.put_from(a, i).1 {
            c.put_from(a, i).0.put_all(b)
        } else {
            c.put_from(a, i)
        }),
    decreases a.len() - i,
{
    if i < a.len() {
        assert((a + b)[i] == a[i]);
        if let Some(c1) = c.put(a[i]) {
            lemma_put_both(c1, a, b, i + 1);
        }
    } else {
        lemma_put_tail(c, a, b, 0);
    }
}

proof fn lemma_put_tail(c: ConnView, a: Seq<Out>, b: Seq<Out>, i: int)
    requires
        0 <= i <= b.len(),
    ensures
        c.put_from(a + b, a.len() + i) == c.put_from(b, i),
    decreases b.len() - i,
{
    if i < b.len() {
        assert((a + b)[a.len() + i] == b[i]);
        if let Some(c1) = c.put(b[i]) {
            lemma_put_tail(c1, a, b, i + 1);
        }
    }
}

/// Whether the k-th pair of requests of a farewell destroys the i-th frame, its
/// buffer and then its pool, which the compositor does not hold.
pub open spec fn destroys(frames: Seq<FrameView>, k: int, i: int) -> bool {
    &&& 0 <= k
    &&& 2 * k + 2 <= farewell(frames).len()
    &&& 0 <= i < frames.len()
    &&& !frames[i].held
    &&& farewell(frames).subrange(2 * k, 2 * k + 2) == destroy_script(
        frames[i].buffer_id,
        frames[i].pool_id,
    )
}

/// Whether the k-th pair of requests of a farewell destroys a frame.
pub open spec fn destroys_one(frames: Seq<FrameView>, k: int) -> bool {
    exists|i: int| #[trigger] destroys(frames, k, i)
}

/// A farewell is for the frames the compositor does not hold, each of them, and
/// for no other.
pub proof fn law_a_farewell_is_for_frames_not_held(frames: Seq<FrameView>)
    ensures
        farewell(frames).len() % 2 == 0,
        forall|i: int|
            0 <= i < frames.len() && !(#[trigger] frames[i]).held ==> exists|k: int|
                destroys(frames, k, i),
        forall|k: int|
            0 <= 2 * k < farewell(frames).len() ==> #[trigger] destroys_one(frames, k),
    decreases frames.len(),
{
    if frames.len() > 0 {
        let rest = frames.drop_last();
        let f = frames.last();
        let n = frames.len() - 1;
        let all = farewell(frames);
        let shift: int = if f.held {
            0
        } else {
            1
        };
        law_a_farewell_is_for_frames_not_held(rest);
        assert forall|k: int, i: int| #[trigger] destroys(rest, k, i) implies destroys(
            frames,
            k + shift,
            i,
        ) by {
            assert(frames[i] == rest[i]);
            assert(all.subrange(2 * (k + shift), 2 * (k + shift) + 2) =~= farewell(rest).subrange(
                2 * k,
                2 * k + 2,
            ));
        }
        if !f.held {
            assert(all.subrange(0, 2) =~= destroy_script(f.buffer_id, f.pool_id));
            assert(destroys(frames, 0, n));
        }
        assert forall|i: int| 0 <= i < frames.len() && !(#[trigger] frames[i]).held implies exists|
            k: int,
        |
            destroys(frames, k, i) by {
            if i < n {
                assert(rest[i] == frames[i]);
                let k = choose|k: int| destroys(rest, k, i);
                assert(destroys(frames, k + shift, i));
            }
        }
        assert forall|k: int| 0 <= 2 * k < all.len() implies #[trigger] destroys_one(frames, k) by {
            if k >= shift {
                assert(destroys_one(rest, k - shift));
                let i = choose|i: int| #[trigger] destroys(rest, k - shift, i);
                assert(destroys(frames, (k - shift) + shift, i));
            }
        }
    }
}

/// What retiring every frame comes to when it goes through.
proof fn lemma_all_retired(p: PresentView, c: ConnView)
    requires
        p.all_retired(c).2 is Ok,
    ensures
        p.all_retired(c).0 == (PresentView {
            frames: Seq::empty(),
            retired: p.retired + awaiting(p.frames),
            gone: p.gone + let_go(p.frames),
            ..p
        }),
        c.put_all(farewell(p.frames)) == (p.all_retired(c).1, true),
    decreases p.frames.len(),
{
    let after = p.all_retired(c).0;
    if p.frames.len() > 0 {
        let f = p.frames.last();
        let frames = p.frames.drop_last();
        let rest = PresentView { frames, ..p };
        if f.held {
            let next = PresentView { retired: p.retired.push(retired_of(f)), ..rest };
            assert(p.all_retired(c) == next.all_retired(c));
            lemma_all_retired(next, c);
            assert(after.retired =~= p.retired + awaiting(p.frames));
        } else {
            let script = destroy_script(f.buffer_id, f.pool_id);
            let next = rest.with_gone(f.shared);
            let c1 = c.put_all(script).0;
            assert(p.all_retired(c) == next.all_retired(c1));
            lemma_all_retired(next, c1);
            lemma_put_both(c, script, farewell(frames), 0);
            assert(after.gone =~= p.gone + let_go(p.frames));
        }
    } else {
        assert(after.frames =~= Seq::<FrameView>::empty());
        assert(after.retired =~= p.retired + awaiting(p.frames));
        assert(after.gone =~= p.gone + let_go(p.frames));
    }
}

/// What a resize comes to: every frame the compositor does not hold is destroyed
/// at once, buffer and then pool, and its memory is gone; every held one is left
/// alone and awaits its release; and two fresh frames of the surface's size
/// stand in their place, ready to be drawn into. Nothing else is asked of the
/// compositor.
pub proof fn law_a_resize_replaces_every_frame(
    p: PresentView,
    c: ConnView,
    ids: IdsView,
    shm: u32,
    shared: Seq<RawFd>,
)
    requires
        shared.len() == FRAMES,
        p.resized(c, ids, shm, shared).3 is Ok,
    ensures
        p.surface is Some,
        ({
            let (q, d, rest, _) = p.resized(c, ids, shm, shared);
            let s = p.surface->0;
            let script = farewell(p.frames) + fresh_script(ids, shm, s.width, s.height, shared);
            &&& c.put_all(script) == (d, true)
            &&& rest == ids.taken().taken().taken().taken()
            &&& q == (PresentView {
                surface: p.surface,
                frames: fresh_frames(ids, s.width, s.height, shared),
                current: 0,
                retired: p.retired + awaiting(p.frames),
                gone: p.gone + let_go(p.frames),
            })
            &&& q.is_ready()
        }),
{
    let (p1, c1, _) = p.all_retired(c);
    lemma_all_retired(p, c);
    let s = p.surface->0;
    let fresh = fresh_script(ids, shm, s.width, s.height, shared);
    lemma_put_both(c, farewell(p.frames), fresh, 0);
    reveal_with_fuel(ConnView::put_from, 6);
    reveal_with_fuel(PresentView::with_frames, 3);
    let q = p.resized(c, ids, shm, shared).0;
    assert(p1.cleared().gone =~= p1.gone);
    assert(q.frames =~= fresh_frames(ids, s.width, s.height, shared));
}

impl PresentView {
    /// No two of the live and the retired frames share a buffer id.
    pub open spec fn distinct(self) -> bool {
        &&& forall|i: int, j: int|
            0 <= i < j < self.frames.len() ==> (#[trigger] self.frames[i]).buffer_id != (
            #[trigger] self.frames[j]).buffer_id
        &&& forall|i: int, j: int|
            0 <= i < j < self.retired.len() ==> (#[trigger] self.retired[i]).buffer_id != (
            #[trigger] self.retired[j]).buffer_id
        &&& forall|i: int, j: int|
            0 <= i < self.frames.len() && 0 <= j < self.retired.len() ==> (
            #[trigger] self.frames[i]).buffer_id != (#[trigger] self.retired[j]).buffer_id
    }

    /// Every frame, live or retired, has a buffer id of its own that is in use.
    pub open spec fn registered(self, ids: IdsView) -> bool {
        &&& ids::sound(ids)
        &&& self.distinct()
        &&& forall|i: int|
            0 <= i < self.frames.len() ==> ids::in_use(ids, (#[trigger] self.frames[i]).buffer_id)
        &&& forall|i: int|
            0 <= i < self.retired.len() ==> ids::in_use(
                ids,
                (#[trigger] self.retired[i]).buffer_id,
            )
    }
}

proof fn lemma_frame_with(p: PresentView, buffer: u32, i: int)
    requires
        0 <= i <= p.frames.len(),
    ensures
        i <= p.frame_with(buffer, i) <= p.frames.len(),
        p.frame_with(buffer, i) < p.frames.len() ==> p.frames[p.frame_with(buffer, i)].buffer_id
            == buffer,
        forall|k: int|
            i <= k < p.frame_with(buffer, i) ==> (#[trigger] p.frames[k]).buffer_id != buffer,
    decreases p.frames.len() - i,
{
    if i < p.frames.len() && p.frames[i].buffer_id != buffer {
        lemma_frame_with(p, buffer, i + 1);
    }
}

proof fn lemma_retired_with(p: PresentView, buffer: u32, i: int)
    requires
        0 <= i <= p.retired.len(),
    ensures
        i <= p.retired_with(buffer, i) <= p.retired.len(),
        p.retired_with(buffer, i) < p.retired.len() ==> p.retired[p.retired_with(
            buffer,
            i,
        )].buffer_id == buffer,
        forall|k: int|
            i <= k < p.retired_with(buffer, i) ==> (#[trigger] p.retired[k]).buffer_id != buffer,
    decreases p.retired.len() - i,
{
    if i < p.retired.len() && p.retired[i].buffer_id != buffer {
        lemma_retired_with(p, buffer, i + 1);
    }
}

/// Allocating frames keeps the buffer ids apart and in use.
proof fn lemma_frames_registered(
    p: PresentView,
    c: ConnView,
    ids: IdsView,
    shm: u32,
    shared: Seq<RawFd>,
    i: int,
)
    requires
        p.registered(ids),
        0 <= i <= shared.len(),
        ids.room(2 * (shared.len() - i)),
    ensures
        ({
            let (q, _, rest, _) = p.with_frames(c, ids, shm, shared, i);
            q.registered(rest)
        }),
    decreases shared.len() - i,
{
    if i < shared.len() {
        let s = p.surface->0;
        let (c1, ids1, r) = created_frame(c, ids, shm, s.width, s.height, shared[i]);
        ids::law_ids_are_never_shared(ids);
        ids::law_ids_are_never_shared(ids.taken());
        match r {
            Ok(f) => {
                let q = p.with_frame(f);
                assert forall|k: int| 0 <= k < q.frames.len() implies ids::in_use(
                    ids1,
                    (#[trigger] q.frames[k]).buffer_id,
                ) by {
                    if k < p.frames.len() {
                        assert(q.frames[k] == p.frames[k]);
                        assert(ids::in_use(ids.taken(), p.frames[k].buffer_id));
                    }
                }
                assert forall|k: int| 0 <= k < q.retired.len() implies ids::in_use(
                    ids1,
                    (#[trigger] q.retired[k]).buffer_id,
                ) by {
                    assert(ids::in_use(ids, p.retired[k].buffer_id));
                    assert(ids::in_use(ids.taken(), p.retired[k].buffer_id));
                }
                assert forall|k: int| 0 <= k < p.frames.len() implies (
                #[trigger] p.frames[k]).buffer_id != f.buffer_id by {
                    assert(ids::in_use(ids.taken(), p.frames[k].buffer_id));
                }
                assert forall|k: int| 0 <= k < p.retired.len() implies (
                #[trigger] p.retired[k]).buffer_id != f.buffer_id by {
                    assert(ids::in_use(ids.taken(), p.retired[k].buffer_id));
                }
                assert(q.distinct());
                lemma_frames_registered(q, c1, ids1, shm, shared, i + 1);
            },
            Err(_) => {
                let q = p.with_gone(shared[i]);
                assert forall|k: int| 0 <= k < q.frames.len() implies ids::in_use(
                    ids1,
                    (#[trigger] q.frames[k]).buffer_id,
                ) by {
                    assert(ids::in_use(ids, p.frames[k].buffer_id));
                    assert(ids::in_use(ids.taken(), p.frames[k].buffer_id));
                }
                assert forall|k: int| 0 <= k < q.retired.len() implies ids::in_use(
                    ids1,
                    (#[trigger] q.retired[k]).buffer_id,
                ) by {
                    assert(ids::in_use(ids, p.retired[k].buffer_id));
                    assert(ids::in_use(ids.taken(), p.retired[k].buffer_id));
                }
            },
        }
    }
}

/// Retiring frames keeps those retired before, and the buffer ids apart.
proof fn lemma_retiring_keeps(p: PresentView, c: ConnView, ids: IdsView)
    ensures
        p.retired.is_prefix_of(p.all_retired(c).0.retired),
        p.registered(ids) ==> p.all_retired(c).0.registered(ids),
        p.all_retired(c).0.current == p.current,
    decreases p.frames.len(),
{
    if p.frames.len() > 0 {
        let f = p.frames.last();
        let n = p.frames.len() - 1;
        let rest = PresentView { frames: p.frames.drop_last(), ..p };
        assert(p.registered(ids) ==> rest.with_gone(f.shared).registered(ids));
        if !f.held {
            let (c1, ok) = c.put_all(destroy_script(f.buffer_id, f.pool_id));
            if ok {
                lemma_retiring_keeps(rest.with_gone(f.shared), c1, ids);
            }
        } else if p.retired.len() < MAX_RETIRED {
            let next = PresentView { retired: p.retired.push(retired_of(f)), ..rest };
            if p.registered(ids) {
                assert(p.frames[n] == f);
                assert(next.distinct());
                assert(next.registered(ids));
            }
            lemma_retiring_keeps(next, c, ids);
            assert(p.retired.is_prefix_of(next.retired));
        }
    }
}

proof fn lemma_commit_keeps(p: PresentView, c: ConnView, ids: IdsView)
    requires
        0 <= p.current,
        p.registered(ids),
    ensures
        p.committed(c).0.registered(ids),
        0 <= p.committed(c).0.current,
{
}

proof fn lemma_release_keeps(p: PresentView, c: ConnView, ids: IdsView, buffer: u32)
    requires
        p.registered(ids),
    ensures
        p.released(c, buffer).0.registered(ids),
        p.released(c, buffer).0.current == p.current,
{
    lemma_frame_with(p, buffer, 0);
    lemma_retired_with(p, buffer, 0);
    let j = p.retired_with(buffer, 0);
    let q = p.released(c, buffer).0;
    if p.frame_with(buffer, 0) == p.frames.len() && j < p.retired.len() {
        let last = p.retired.len() - 1;
        assert forall|k: int| 0 <= k < q.retired.len() implies (#[trigger] q.retired[k]) == (if k
            == j {
            p.retired[last]
        } else {
            p.retired[k]
        }) by {}
        assert(q.distinct());
    }
}

proof fn lemma_new_frames_keep(
    p: PresentView,
    c: ConnView,
    ids: IdsView,
    shm: u32,
    shared: Seq<RawFd>,
)
    requires
        0 <= p.current,
        p.registered(ids),
        shared.len() == FRAMES,
        ids.room(4),
    ensures
        ({
            let (q, _, rest, _) = p.with_new_frames(c, ids, shm, shared);
            q.registered(rest) && 0 <= q.current && q.retired == p.retired
        }),
{
    if p.surface is Some {
        assert(p.cleared().registered(ids));
        lemma_frames_registered(p.cleared(), c, ids, shm, shared, 0);
        lemma_frames_leave_the_retired(p.cleared(), c, ids, shm, shared, 0);
    }
}

proof fn lemma_resize_keeps(
    p: PresentView,
    c: ConnView,
    ids: IdsView,
    shm: u32,
    shared: Seq<RawFd>,
)
    requires
        0 <= p.current,
        p.registered(ids),
        shared.len() == FRAMES,
        ids.room(4),
    ensures
        ({
            let (q, _, rest, _) = p.resized(c, ids, shm, shared);
            q.registered(rest) && 0 <= q.current
        }),
{
    lemma_retiring_keeps(p, c, ids);
    let (p1, c1, r1) = p.all_retired(c);
    if r1 is Ok {
        lemma_new_frames_keep(p1, c1, ids, shm, shared);
    }
}

/// A retired frame waits for its own release: until then, showing a frame, the
/// release of another buffer and a resize leave it retired.
pub proof fn law_a_retired_frame_waits(
    p: PresentView,
    c: ConnView,
    ids: IdsView,
    shm: u32,
    shared: Seq<RawFd>,
    r: Retired,
    other: u32,
)
    requires
        p.retired.contains(r),
        other != r.buffer_id,
    ensures
        p.committed(c).0.retired == p.retired,
        p.released(c, other).0.retired.contains(r),
        p.resized(c, ids, shm, shared).0.retired.contains(r),
{
    let at = choose|k: int| 0 <= k < p.retired.len() && p.retired[k] == r;
    lemma_frame_with(p, other, 0);
    lemma_retired_with(p, other, 0);
    let j = p.retired_with(other, 0);
    let q = p.released(c, other).0;
    if p.frame_with(other, 0) == p.frames.len() && j < p.retired.len() {
        if at == p.retired.len() - 1 {
            assert(q.retired[j] == r);
        } else {
            assert(q.retired[at] == r);
        }
    } else {
        assert(q.retired == p.retired);
    }
    lemma_retiring_keeps(p, c, ids);
    let (p1, c1, r1) = p.all_retired(c);
    assert(p1.retired[at] == r);
    if r1 is Ok && p1.surface is Some {
        lemma_frames_leave_the_retired(p1.cleared(), c1, ids, shm, shared, 0);
    }
}

proof fn lemma_frames_leave_the_retired(
    p: PresentView,
    c: ConnView,
    ids: IdsView,
    shm: u32,
    shared: Seq<RawFd>,
    i: int,
)
    ensures
        p.with_frames(c, ids, shm, shared, i).0.retired == p.retired,
        p.with_frames(c, ids, shm, shared, i).0.current == p.current,
    decreases shared.len() - i,
{
    if i < shared.len() {
        let s = p.surface->0;
        let (c1, ids1, r) = created_frame(c, ids, shm, s.width, s.height, shared[i]);
        if let Ok(f) = r {
            lemma_frames_leave_the_retired(p.with_frame(f), c1, ids1, shm, shared, i + 1);
        }
    }
}

/// A retired frame is destroyed on its release, and only once: the release of
/// its buffer destroys buffer and then pool and lets its memory go, and any
/// further release of that buffer is nothing of ours.
pub proof fn law_a_retired_frame_is_destroyed_once(
    p: PresentView,
    c: ConnView,
    later: ConnView,
    r: Retired,
)
    requires
        p.distinct(),
        p.retired.contains(r),
    ensures
        ({
            let (q, d, result) = p.released(c, r.buffer_id);
            let (after, ok) = c.put_all(destroy_script(r.buffer_id, r.pool_id).push(Out::Flush));
            &&& d == after
            &&& result == if ok {
                Ok::<bool, Error>(true)
            } else {
                Err::<bool, Error>(conn::full())
            }
            &&& q.frames == p.frames
            &&& q.gone == p.gone.push(r.shared)
            &&& q.retired.len() == p.retired.len() - 1
            &&& !q.owns(r.buffer_id)
            &&& q.released(later, r.buffer_id) == (q, later, Ok::<bool, Error>(false))
        }),
{
    let b = r.buffer_id;
    let at = choose|k: int| 0 <= k < p.retired.len() && p.retired[k] == r;
    lemma_frame_with(p, b, 0);
    lemma_retired_with(p, b, 0);
    let j = p.retired_with(b, 0);
    assert(p.frame_with(b, 0) == p.frames.len()) by {
        if p.frame_with(b, 0) < p.frames.len() {
            assert(p.frames[p.frame_with(b, 0)].buffer_id != p.retired[at].buffer_id);
        }
    }
    assert(j == at) by {
        assert(j <= at);
        if j < at {
            assert(p.retired[j].buffer_id != p.retired[at].buffer_id);
        }
    }
    let q = p.released(c, b).0;
    let last = p.retired.len() - 1;
    assert forall|k: int| 0 <= k < q.retired.len() implies (#[trigger] q.retired[k]).buffer_id
        != b by {
        if k == j {
            assert(p.retired[last].buffer_id != p.retired[at].buffer_id);
        } else if k < at {
            assert(p.retired[k].buffer_id != p.retired[at].buffer_id);
        } else {
            assert(p.retired[at].buffer_id != p.retired[k].buffer_id);
        }
    }
    lemma_frame_with(q, b, 0);
    lemma_retired_with(q, b, 0);
    assert(q.frame_with(b, 0) == q.frames.len()) by {
        if q.frame_with(b, 0) < q.frames.len() {
            assert(p.frames[q.frame_with(b, 0)].buffer_id != p.retired[at].buffer_id);
        }
    }
}

proof fn lemma_awaiting(frames: Seq<FrameView>, r: Retired)
    ensures
        awaiting(frames).contains(r) <==> exists|i: int|
            0 <= i < frames.len() && (#[trigger] frames[i]).held && retired_of(frames[i]) == r,
    decreases frames.len(),
{
    if frames.len() > 0 {
        let rest = frames.drop_last();
        let n = frames.len() - 1;
        let f = frames.last();
        let all = awaiting(frames);
        lemma_awaiting(rest, r);
        if awaiting(rest).contains(r) {
            let i = choose|i: int|
                0 <= i < rest.len() && (#[trigger] rest[i]).held && retired_of(rest[i]) == r;
            assert(frames[i] == rest[i]);
            let k = choose|k: int| 0 <= k < awaiting(rest).len() && awaiting(rest)[k] == r;
            if f.held {
                assert(all[k + 1] == r);
            }
        }
        if f.held && retired_of(f) == r {
            assert(all[0] == r);
            assert(frames[n] == f);
        }
        if all.contains(r) && !awaiting(rest).contains(r) {
            let k = choose|k: int| 0 <= k < all.len() && all[k] == r;
            assert(f.held);
            if k > 0 {
                assert(awaiting(rest)[k - 1] == r);
            }
            assert(frames[n] == f);
        }
        if exists|i: int|
            0 <= i < frames.len() && (#[trigger] frames[i]).held && retired_of(frames[i]) == r {
            let i = choose|i: int|
                0 <= i < frames.len() && (#[trigger] frames[i]).held && retired_of(frames[i]) == r;
            if i < n {
                assert(rest[i] == frames[i]);
            }
        }
    } else {
        assert(awaiting(frames) =~= Seq::<Retired>::empty());
    }
}

/// A frame destroyed by a resize is no longer one of ours; one the compositor
/// held awaits its release.
proof fn lemma_after_a_resize(
    p: PresentView,
    c: ConnView,
    ids: IdsView,
    shm: u32,
    shared: Seq<RawFd>,
    i: int,
)
    requires
        0 <= p.current,
        p.registered(ids),
        ids.room(4),
        shared.len() == FRAMES,
        p.resized(c, ids, shm, shared).3 is Ok,
        0 <= i < p.frames.len(),
    ensures
        ({
            let q = p.resized(c, ids, shm, shared).0;
            let f = p.frames[i];
            if f.held {
                q.retired.contains(retired_of(f))
            } else {
                !q.owns(f.buffer_id)
            }
        }),
{
    let q = p.resized(c, ids, shm, shared).0;
    let f = p.frames[i];
    let b = f.buffer_id;
    law_a_resize_replaces_every_frame(p, c, ids, shm, shared);
    let kept = awaiting(p.frames);
    if f.held {
        lemma_awaiting(p.frames, retired_of(f));
        let k = choose|k: int| 0 <= k < kept.len() && kept[k] == retired_of(f);
        assert(q.retired[p.retired.len() + k] == retired_of(f));
    } else {
        assert forall|k: int| 0 <= k < q.retired.len() implies (#[trigger] q.retired[k]).buffer_id
            != b by {
            if k < p.retired.len() {
                assert(q.retired[k] == p.retired[k]);
            } else {
                let r = kept[k - p.retired.len()];
                lemma_awaiting(p.frames, r);
                assert(kept.contains(r));
                let m = choose|m: int|
                    0 <= m < p.frames.len() && (#[trigger] p.frames[m]).held && retired_of(
                        p.frames[m],
                    ) == r;
                assert(m != i);
                if m < i {
                    assert(p.frames[m].buffer_id != p.frames[i].buffer_id);
                } else {
                    assert(p.frames[i].buffer_id != p.frames[m].buffer_id);
                }
            }
        }
        // A fresh frame's buffer id was in use by nobody.
        let ids1 = ids.taken();
        let ids2 = ids1.taken();
        ids::law_ids_are_never_shared(ids);
        ids::law_ids_are_never_shared(ids1);
        ids::law_ids_are_never_shared(ids2);
        ids::law_ids_are_never_shared(ids2.taken());
        assert(ids::in_use(ids1, b));
        assert(ids::in_use(ids2, b));
        assert(ids::in_use(ids2.taken(), b));
        lemma_frame_with(q, b, 0);
        lemma_retired_with(q, b, 0);
    }
}

/// Something that happens to the frames, or to the ids they draw on. A
/// connection is as it was found.
pub enum Event {
    /// The frame just drawn is shown.
    Show(ConnView),
    /// The compositor lets a buffer go.
    Release(ConnView, u32),
    /// The frames are replaced by ones over this shared memory.
    Resize(ConnView, u32, Seq<RawFd>),
    /// Frames are allocated over this shared memory.
    Allocate(ConnView, u32, Seq<RawFd>),
    /// The surface comes up, is configured or goes.
    Surface(Option<Surface>),
    /// The memory nobody uses is collected.
    Collect,
    /// Something else takes an id.
    Take,
    /// The compositor deletes an id that is in use by something else.
    Delete(u32),
}

impl Event {
    /// Whether this can happen: there are ids for what takes one, and an id is
    /// deleted only while it is in use and no frame of ours has it.
    pub open spec fn possible(self, p: PresentView, ids: IdsView) -> bool {
        match self {
            Event::Resize(_, _, shared) => shared.len() == FRAMES && ids.room(4),
            Event::Allocate(_, _, shared) => shared.len() == FRAMES && ids.room(4),
            Event::Take => ids.room(1),
            Event::Delete(id) => ids::in_use(ids, id) && !p.owns(id),
            _ => true,
        }
    }

    /// What it leads to, whether it goes through or not.
    pub open spec fn leads_to(self, p: PresentView, ids: IdsView) -> (PresentView, IdsView) {
        match self {
            Event::Show(c) => (p.committed(c).0, ids),
            Event::Release(c, buffer) => (p.released(c, buffer).0, ids),
            Event::Resize(c, shm, shared) => {
                let (q, _, rest, _) = p.resized(c, ids, shm, shared);
                (q, rest)
            },
            Event::Allocate(c, shm, shared) => {
                let (q, _, rest, _) = p.with_new_frames(c, ids, shm, shared);
                (q, rest)
            },
            Event::Surface(surface) => (PresentView { surface, ..p }, ids),
            Event::Collect => (PresentView { gone: Seq::empty(), ..p }, ids),
            Event::Take => (p, ids.taken()),
            Event::Delete(id) => (p, ids.recycled(id)),
        }
    }
}

/// Where some events lead.
pub open spec fn after_all(p: PresentView, ids: IdsView, events: Seq<Event>) -> (
    PresentView,
    IdsView,
)
    decreases events.len(),
{
    if events.len() == 0 {
        (p, ids)
    } else {
        let (q, rest) = after_all(p, ids, events.drop_last());
        events.last().leads_to(q, rest)
    }
}

/// Whether some events can happen, one after the other.
pub open spec fn can_happen(p: PresentView, ids: IdsView, events: Seq<Event>) -> bool
    decreases events.len(),
{
    if events.len() == 0 {
        true
    } else {
        let (q, rest) = after_all(p, ids, events.drop_last());
        can_happen(p, ids, events.drop_last()) && events.last().possible(q, rest)
    }
}

/// No frames, and no id handed out.
pub open spec fn beginning() -> (PresentView, IdsView) {
    (
        PresentView {
            surface: None,
            frames: Seq::empty(),
            current: 0,
            retired: Seq::empty(),
            gone: Seq::empty(),
        },
        IdsView { next: 2, free: Seq::empty() },
    )
}

proof fn lemma_event_keeps(p: PresentView, ids: IdsView, e: Event)
    requires
        0 <= p.current,
        p.registered(ids),
        e.possible(p, ids),
    ensures
        e.leads_to(p, ids).0.registered(e.leads_to(p, ids).1),
        0 <= e.leads_to(p, ids).0.current,
{
    match e {
        Event::Show(c) => lemma_commit_keeps(p, c, ids),
        Event::Release(c, buffer) => lemma_release_keeps(p, c, ids, buffer),
        Event::Resize(c, shm, shared) => lemma_resize_keeps(p, c, ids, shm, shared),
        Event::Allocate(c, shm, shared) => lemma_new_frames_keep(p, c, ids, shm, shared),
        Event::Surface(_) => {},
        Event::Collect => {},
        Event::Take => {
            ids::law_ids_are_never_shared(ids);
            assert forall|i: int| 0 <= i < p.frames.len() implies ids::in_use(
                ids.taken(),
                (#[trigger] p.frames[i]).buffer_id,
            ) by {
                assert(ids::in_use(ids, p.frames[i].buffer_id));
            }
            assert forall|i: int| 0 <= i < p.retired.len() implies ids::in_use(
                ids.taken(),
                (#[trigger] p.retired[i]).buffer_id,
            ) by {
                assert(ids::in_use(ids, p.retired[i].buffer_id));
            }
        },
        Event::Delete(id) => {
            ids::law_a_deleted_id_goes_out_of_use(ids, id);
            lemma_frame_with(p, id, 0);
            lemma_retired_with(p, id, 0);
            assert forall|i: int| 0 <= i < p.frames.len() implies ids::in_use(
                ids.recycled(id),
                (#[trigger] p.frames[i]).buffer_id,
            ) by {
                assert(ids::in_use(ids, p.frames[i].buffer_id));
            }
            assert forall|i: int| 0 <= i < p.retired.len() implies ids::in_use(
                ids.recycled(id),
                (#[trigger] p.retired[i]).buffer_id,
            ) by {
                assert(ids::in_use(ids, p.retired[i].buffer_id));
            }
        },
    }
}

proof fn lemma_events_keep(p: PresentView, ids: IdsView, events: Seq<Event>)
    requires
        0 <= p.current,
        p.registered(ids),
        can_happen(p, ids, events),
    ensures
        after_all(p, ids, events).0.registered(after_all(p, ids, events).1),
        0 <= after_all(p, ids, events).0.current,
    decreases events.len(),
{
    if events.len() > 0 {
        lemma_events_keep(p, ids, events.drop_last());
        let (q, rest) = after_all(p, ids, events.drop_last());
        lemma_event_keeps(q, rest, events.last());
    }
}

/// No two frames ever share a buffer id: whatever happens from the beginning,
/// every frame, live or retired, has one of its own that is in use.
pub proof fn law_buffers_stay_apart(events: Seq<Event>)
    requires
        can_happen(beginning().0, beginning().1, events),
    ensures
        ({
            let (p, ids) = after_all(beginning().0, beginning().1, events);
            p.registered(ids)
        }),
{
    lemma_events_keep(beginning().0, beginning().1, events);
}

proof fn lemma_retired_waits(p: PresentView, ids: IdsView, events: Seq<Event>, r: Retired)
    requires
        p.retired.contains(r),
        can_happen(p, ids, events),
        forall|k: int|
            0 <= k < events.len() ==> (#[trigger] events[k] matches Event::Release(_, b) ==> b
                != r.buffer_id),
    ensures
        after_all(p, ids, events).0.retired.contains(r),
    decreases events.len(),
{
    if events.len() > 0 {
        let before = events.drop_last();
        assert forall|k: int| 0 <= k < before.len() implies (#[trigger] before[k] matches Event::Release(
            _,
            b,
        ) ==> b != r.buffer_id) by {
            assert(before[k] == events[k]);
        }
        lemma_retired_waits(p, ids, before, r);
        let (q, rest) = after_all(p, ids, before);
        let e = events.last();
        assert(e == events[events.len() - 1]);
        let other: u32 = if r.buffer_id == 0 {
            1
        } else {
            0
        };
        match e {
            Event::Show(c) => law_a_retired_frame_waits(q, c, rest, 0, Seq::empty(), r, other),
            Event::Release(c, b) => law_a_retired_frame_waits(q, c, rest, 0, Seq::empty(), r, b),
            Event::Resize(c, shm, shared) => law_a_retired_frame_waits(
                q,
                c,
                rest,
                shm,
                shared,
                r,
                other,
            ),
            Event::Allocate(c, shm, shared) => {
                if q.surface is Some {
                    lemma_frames_leave_the_retired(q.cleared(), c, rest, shm, shared, 0);
                }
            },
            _ => {},
        }
    }
}

/// The life of a frame that is resized away, from whatever happened before. One
/// the compositor does not hold is destroyed there and then, and is no longer
/// ours. One it holds is kept, whatever happens next, until the compositor
/// releases its buffer: that destroys it, buffer and then pool, and no release
/// after that does.
pub proof fn law_a_resized_frame_dies_once(
    past: Seq<Event>,
    c: ConnView,
    shm: u32,
    shared: Seq<RawFd>,
    i: int,
    next: Seq<Event>,
    at_release: ConnView,
    later: ConnView,
)
    requires
        can_happen(beginning().0, beginning().1, past),
        ({
            let (p, ids) = after_all(beginning().0, beginning().1, past);
            let (q, _, rest, result) = p.resized(c, ids, shm, shared);
            &&& ids.room(4)
            &&& shared.len() == FRAMES
            &&& 0 <= i < p.frames.len()
            &&& result is Ok
            &&& can_happen(q, rest, next)
            &&& forall|k: int|
                0 <= k < next.len() ==> (#[trigger] next[k] matches Event::Release(_, b) ==> b
                    != p.frames[i].buffer_id)
        }),
    ensures
        ({
            let (p, ids) = after_all(beginning().0, beginning().1, past);
            let (q, d, rest, _) = p.resized(c, ids, shm, shared);
            let s = p.surface->0;
            let f = p.frames[i];
            &&& c.put_all(
                farewell(p.frames) + fresh_script(ids, shm, s.width, s.height, shared),
            ) == (d, true)
            &&& q.frames == fresh_frames(ids, s.width, s.height, shared)
            &&& q.is_ready()
            &&& !f.held ==> !q.owns(f.buffer_id)
            &&& f.held ==> {
                let u = after_all(q, rest, next).0;
                let (v, e, result) = u.released(at_release, f.buffer_id);
                let (after, ok) = at_release.put_all(
                    destroy_script(f.buffer_id, f.pool_id).push(Out::Flush),
                );
                &&& u.retired.contains(retired_of(f))
                &&& e == after
                &&& result == if ok {
                    Ok::<bool, Error>(true)
                } else {
                    Err::<bool, Error>(conn::full())
                }
                &&& v.gone == u.gone.push(f.shared)
                &&& v.released(later, f.buffer_id) == (v, later, Ok::<bool, Error>(false))
            }
        }),
{
    let (p, ids) = after_all(beginning().0, beginning().1, past);
    let (q, _, rest, _) = p.resized(c, ids, shm, shared);
    let f = p.frames[i];
    lemma_events_keep(beginning().0, beginning().1, past);
    law_a_resize_replaces_every_frame(p, c, ids, shm, shared);
    lemma_resize_keeps(p, c, ids, shm, shared);
    lemma_after_a_resize(p, c, ids, shm, shared, i);
    if f.held {
        lemma_events_keep(q, rest, next);
        lemma_retired_waits(q, rest, next, retired_of(f));
        law_a_retired_frame_is_destroyed_once(
            after_all(q, rest, next).0,
            at_release,
            later,
            retired_of(f),
        );
    }
}

} // verus!

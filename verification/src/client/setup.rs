//! The requests that set the client up: the registry, the bindings, the layer
//! surface and its frames.
use vstd::prelude::*;

use crate::client::events::Effect;
use crate::client::{Bindings, Client, ClientView, Interface, MAX_GLOBALS};
use crate::clipboard::ClipView;
use crate::platform::conn;
use crate::platform::conn::{ConnView, Frame, Out};
use crate::platform::error::{Error, Result};
use crate::platform::protocol::{
    KeyboardInteractivity, DATA_DEVICE_MANAGER_GET_DATA_DEVICE, DISPLAY_GET_REGISTRY,
    DISPLAY_SYNC, LAYER_SURFACE_SET_SIZE, REGISTRY_BIND, SURFACE_COMMIT, WL_DISPLAY,
};
use crate::platform::syscall::RawFd;
use crate::platform::time::Instant;
use crate::platform::wire;
use crate::platform::wire::Arg;
use crate::present::{Surface, FRAMES};
use crate::platform::text::str_eq;

verus! {

/// A version the compositor offers and the launcher speaks.
pub open spec fn common_version(offered: u32, wanted: u32) -> u32 {
    if offered < wanted {
        offered
    } else {
        wanted
    }
}

/// The request that binds a global.
pub open spec fn bind_message(registry: u32, name: u32, offered: u32, i: Interface, id: u32) -> Seq<
    u8,
> {
    wire::message_bytes(
        registry,
        REGISTRY_BIND,
        seq![
            Arg::Uint(name),
            Arg::Bind {
                interface: i.name(),
                version: common_version(offered, i.version()),
                new_id: id,
            },
        ],
    )
}

impl ClientView {
    /// After a sync is asked for.
    pub open spec fn syncing(self) -> (ClientView, bool) {
        let id = self.ids.id();
        let (c, ok) = self.socket.put_all(new_id_script(WL_DISPLAY, DISPLAY_SYNC, id));
        (
            ClientView {
                socket: c,
                ids: self.ids.taken(),
                sync_callback: Some(id),
                sync_done: false,
                ..self
            },
            ok,
        )
    }

    /// After the registry is asked for.
    pub open spec fn with_registry(self) -> (ClientView, bool) {
        let id = self.ids.id();
        let (c, ok) = self.socket.put_all(new_id_script(WL_DISPLAY, DISPLAY_GET_REGISTRY, id));
        (
            ClientView {
                socket: c,
                ids: self.ids.taken(),
                bindings: Bindings { registry: Some(id), ..self.bindings },
                ..self
            },
            ok,
        )
    }

    /// With one global bound, when its interface is not bound yet.
    pub open spec fn with_binding(self, registry: u32, i: int) -> (ClientView, bool) {
        let g = self.globals[i];
        match Interface::of_name(g.interface) {
            None => (self, true),
            Some(iface) => if self.bindings.bound(iface) is Some {
                (self, true)
            } else {
                let id = self.ids.id();
                let v = ClientView {
                    ids: self.ids.taken(),
                    bindings: self.bindings.with(iface, id),
                    ..self
                };
                match self.socket.put(
                    Out::Msg(bind_message(registry, g.name, g.version, iface, id)),
                ) {
                    None => (v, false),
                    Some(c) => (ClientView { socket: c, ..v }, true),
                }
            },
        }
    }

    /// With the globals from i on bound, in order. The first global of an
    /// interface wins, since every binding is single-valued.
    pub open spec fn with_bindings(self, registry: u32, i: int) -> (ClientView, bool)
        decreases self.globals.len() - i,
    {
        if i >= self.globals.len() {
            (self, true)
        } else {
            match self.with_binding(registry, i) {
                (v, true) => v.with_bindings(registry, i + 1),
                (v, false) => (v, false),
            }
        }
    }

    /// With a data device for clipboard operations, when there is a manager and
    /// a seat.
    pub open spec fn with_data_device(self) -> (ClientView, bool) {
        if self.bindings.data_device_manager is Some && self.bindings.seat is Some {
            let id = self.ids.id();
            let v = ClientView { ids: self.ids.taken(), ..self };
            match self.socket.put(
                Out::Msg(
                    wire::message_bytes(
                        self.bindings.data_device_manager->0,
                        DATA_DEVICE_MANAGER_GET_DATA_DEVICE,
                        seq![Arg::NewId(id), Arg::Object(self.bindings.seat->0)],
                    ),
                ),
            ) {
                None => (v, false),
                Some(c) => (
                    ClientView {
                        socket: c,
                        clipboard: ClipView { device_id: Some(id), ..self.clipboard },
                        ..v
                    },
                    true,
                ),
            }
        } else {
            (self, true)
        }
    }

    /// After the essential globals are bound.
    pub open spec fn with_globals_bound(self) -> (ClientView, core::result::Result<(), Error>) {
        match self.bindings.registry {
            None => (self, Err(Error::of_msg("registry not initialized"))),
            Some(registry) => match self.with_bindings(registry, 0) {
                (v, false) => (v, Err(conn::full())),
                (v, true) => match v.with_data_device() {
                    (w, false) => (w, Err(conn::full())),
                    (w, true) => (
                        ClientView { socket: w.socket.flushed(), ..w },
                        Ok(()),
                    ),
                },
            },
        }
    }

    /// The version of the first layer shell advertised from i on; 1 without one.
    pub open spec fn layer_shell_version(self, i: int) -> u32
        decreases self.globals.len() - i,
    {
        if i >= self.globals.len() {
            1
        } else if self.globals[i].interface == Interface::LayerShell.name()@ {
            self.globals[i].version
        } else {
            self.layer_shell_version(i + 1)
        }
    }

    /// Whether a layer shell is advertised.
    pub open spec fn offers_layer_shell(self) -> bool {
        exists|i: int|
            0 <= i < self.globals.len() && (#[trigger] self.globals[i]).interface
                == Interface::LayerShell.name()@
    }

    /// How the surface takes keyboard input. OnDemand needs layer-shell v4. It
    /// yields keyboard focus when the user switches windows, which dismisses the
    /// launcher; older versions only offer the exclusive grab, which does not.
    pub open spec fn interactivity(self) -> KeyboardInteractivity {
        if self.layer_shell_version(0) >= 4 {
            KeyboardInteractivity::OnDemand
        } else {
            KeyboardInteractivity::Exclusive
        }
    }
}

/// The requests that make a new object and send it off.
pub open spec fn new_id_script(object: u32, opcode: u16, id: u32) -> Seq<Out> {
    seq![Out::Msg(wire::message_bytes(object, opcode, seq![Arg::NewId(id)])), Out::Flush]
}

/// The requests that resize the surface.
pub open spec fn resize_script(s: Surface, width: u32, height: u32) -> Seq<Out> {
    seq![
        Out::Msg(
            wire::message_bytes(
                s.layer_surface_id,
                LAYER_SURFACE_SET_SIZE,
                seq![Arg::Uint(width), Arg::Uint(height)],
            ),
        ),
        Out::Msg(wire::message_bytes(s.id, SURFACE_COMMIT, Seq::<Arg<'static>>::empty())),
        Out::Flush,
    ]
}

impl Client {
    /// Make a new object and send the request off.
    fn request_new(&mut self, object: u32, opcode: u16, id: u32) -> (r: Result<()>)
        requires
            old(self).wf(),
        ensures
            final(self).wf(),
            ({
                let (c, ok) = old(self)@.socket.put_all(new_id_script(object, opcode, id));
                &&& final(self)@ == (ClientView { socket: c, ..old(self)@ })
                &&& ok ==> r == Ok::<(), Error>(())
                &&& !ok ==> r == Err::<(), Error>(conn::full())
            }),
    {
        let ghost c0 = self.socket@;
        let ghost script = new_id_script(object, opcode, id);
        let args = [Arg::NewId(id)];
        assert(args@ =~= seq![Arg::NewId(id)]);
        self.socket.request(object, opcode, &args)?;
        assert(c0.put_all(script) == self.socket@.put_from(script, 1));
        self.socket.flush();
        assert(c0.put_all(script) == self.socket@.put_from(script, 2));
        Ok(())
    }

    /// Check if layer shell is available.
    pub fn has_layer_shell(&self) -> (r: bool)
        requires
            self.wf(),
        ensures
            r == self@.offers_layer_shell(),
    {
        let mut i: usize = 0;
        while i < self.globals.len()
            invariant
                i <= self.globals@.len(),
                self.wf(),
                forall|j: int|
                    0 <= j < i ==> (#[trigger] self@.globals[j]).interface
                        != Interface::LayerShell.name()@,
            decreases self.globals@.len() - i,
        {
            let g = &self.globals.as_slice()[i];
            assert(self@.globals[i as int] == g@);
            if str_eq(g.interface.as_str(), Interface::LayerShell.as_str()) {
                return true;
            }
            i += 1;
        }
        false
    }

    /// Send a sync request. The caller then handles messages until the callback
    /// comes or the connection ends, and asks `synced` which it was.
    pub fn roundtrip(&mut self) -> (r: Result<()>)
        requires
            old(self).wf(),
            old(self)@.ids.room(1),
        ensures
            final(self).wf(),
            final(self)@ == old(self)@.syncing().0,
            r == if old(self)@.syncing().1 {
                Ok::<(), Error>(())
            } else {
                Err::<(), Error>(conn::full())
            },
    {
        let id: u32 = self.ids.allocate();
        self.sync_callback = Some(id);
        self.sync_done = false;
        self.request_new(WL_DISPLAY, DISPLAY_SYNC, id)
    }

    /// Whether to go on waiting for the sync callback. A wl_display.error or a
    /// closed layer surface ends the wait, since the callback will never arrive
    /// after either.
    pub fn awaits_sync(&self) -> (r: bool)
        ensures
            r == (!self@.sync_done && self@.running),
    {
        !self.sync_done && self.running
    }

    /// The end of a wait for the sync callback.
    pub fn synced(&mut self) -> (r: Result<()>)
        requires
            old(self).wf(),
        ensures
            final(self).wf(),
            final(self)@ == (ClientView { sync_callback: None, ..old(self)@ }),
            r == if old(self)@.sync_done {
                Ok::<(), Error>(())
            } else {
                Err::<(), Error>(Error::of_msg("connection ended before sync completed"))
            },
    {
        self.sync_callback = None;
        if !self.sync_done {
            return Err(Error::msg("connection ended before sync completed"));
        }
        Ok(())
    }

    /// Initialize the connection by getting the registry.
    pub fn init(&mut self) -> (r: Result<()>)
        requires
            old(self).wf(),
            old(self)@.ids.room(1),
        ensures
            final(self).wf(),
            final(self)@ == old(self)@.with_registry().0,
            r == if old(self)@.with_registry().1 {
                Ok::<(), Error>(())
            } else {
                Err::<(), Error>(conn::full())
            },
    {
        let id: u32 = self.ids.allocate();
        self.bindings.registry = Some(id);
        self.request_new(WL_DISPLAY, DISPLAY_GET_REGISTRY, id)
    }

    /// Handle one message from the compositor, if one is fully buffered. None
    /// when there is not, and the caller should read more from the socket.
    pub fn dispatch(&mut self, now: Instant) -> (r: Result<Option<Effect>>)
        requires
            old(self).wf(),
            old(self)@.ids.room(2),
            old(self)@.pointer.click_count < u32::MAX,
        ensures
            final(self).wf(),
            match conn::next_frame(old(self)@.socket.pending) {
                Frame::Partial => r == Ok::<Option<Effect>, Error>(None) && final(self)@ == old(
                    self,
                )@,
                Frame::Bad(e) => r == Err::<Option<Effect>, Error>(e) && final(self)@ == old(self)@,
                Frame::Whole { object, opcode, body, size } => {
                    let read = ClientView {
                        socket: ConnView {
                            pending: old(self)@.socket.pending.skip(size as int),
                            consumed: old(self)@.socket.consumed + size,
                            ..old(self)@.socket
                        },
                        ..old(self)@
                    };
                    let (v, e) = read.after(object as u32, opcode as u16, body, now);
                    &&& final(self)@ == v
                    &&& match r {
                        Ok(Some(effect)) => Effect::is(Ok(effect), e),
                        Err(error) => Effect::is(Err(error), e),
                        Ok(None) => false,
                    }
                },
            },
    {
        match self.socket.next_message()? {
            None => Ok(None),
            Some(msg) => match self.handle_message(&msg, now) {
                Ok(effect) => Ok(Some(effect)),
                Err(e) => Err(e),
            },
        }
    }

    /// Bind one global, when its interface is not bound yet.
    fn bind_global(&mut self, registry: u32, i: usize) -> (r: Result<()>)
        requires
            old(self).wf(),
            old(self)@.ids.room(1),
            i < old(self).globals@.len(),
        ensures
            final(self).wf(),
            final(self)@ == old(self)@.with_binding(registry, i as int).0,
            r == if old(self)@.with_binding(registry, i as int).1 {
                Ok::<(), Error>(())
            } else {
                Err::<(), Error>(conn::full())
            },
    {
        let ghost v = self@;
        let g = &self.globals.as_slice()[i];
        assert(v.globals[i as int] == g@);
        let name: u32 = g.name;
        let offered: u32 = g.version;
        let iface = match Interface::bindable(g.interface.as_str()) {
            Some(iface) => iface,
            None => {
                return Ok(());
            },
        };
        if self.bindings.get(iface).is_some() {
            return Ok(());
        }
        let id: u32 = self.ids.allocate();
        self.bindings.set(iface, id);
        let wanted: u32 = iface.wanted_version();
        // Never ask for more than the compositor offers.
        let version: u32 = if offered < wanted {
            offered
        } else {
            wanted
        };
        let args = [
            Arg::Uint(name),
            Arg::Bind { interface: iface.as_str(), version, new_id: id },
        ];
        assert(args@ =~= seq![
            Arg::Uint(name),
            Arg::Bind {
                interface: iface.name(),
                version: common_version(offered, iface.version()),
                new_id: id,
            },
        ]);
        self.socket.request(registry, REGISTRY_BIND, &args)
    }

    /// Bind to essential global interfaces.
    pub fn bind_globals(&mut self) -> (r: Result<()>)
        requires
            old(self).wf(),
            old(self)@.ids.room(MAX_GLOBALS + 1),
        ensures
            final(self).wf(),
            (final(self)@, r) == old(self)@.with_globals_bound(),
    {
        let registry = match self.bindings.registry {
            Some(registry) => registry,
            None => {
                return Err(Error::msg("registry not initialized"));
            },
        };
        let ghost v0 = self@;
        // The interface a global advertises decides which binding it fills and
        // which version to ask for. A compositor may advertise the same
        // interface more than once (a seat per input device, say); the first
        // wins, since every binding here is single-valued.
        let mut i: usize = 0;
        while i < self.globals.len()
            invariant
                i <= self.globals@.len() <= MAX_GLOBALS,
                self.wf(),
                self@.ids.room(MAX_GLOBALS + 1 - i),
                v0 == old(self)@,
                v0.bindings.registry == Some(registry),
                v0.with_bindings(registry, 0) == self@.with_bindings(registry, i as int),
            decreases self.globals@.len() - i,
        {
            let ghost v = self@;
            assert(v.with_binding(registry, i as int).0.globals == v.globals);
            let ghost n = self.globals@.len();
            let bound = self.bind_global(registry, i);
            proof {
                assert(self@.globals.len() == v.globals.len());
                assert(self.globals@.len() == n);
            }
            bound?;
            i += 1;
        }
        let ghost v1 = self@;
        assert(v0.with_bindings(registry, 0) == (v1, true));
        // Get a data device for clipboard operations
        if let (Some(manager_id), Some(seat_id)) = (
            self.bindings.data_device_manager,
            self.bindings.seat,
        ) {
            let id: u32 = self.ids.allocate();
            let args = [Arg::NewId(id), Arg::Object(seat_id)];
            assert(args@ =~= seq![Arg::NewId(id), Arg::Object(seat_id)]);
            self.socket.request(manager_id, DATA_DEVICE_MANAGER_GET_DATA_DEVICE, &args)?;
            self.clipboard.device_id = Some(id);
        }
        assert(v1.with_data_device() == (self@, true));
        self.socket.flush();
        Ok(())
    }

    /// The version of the first layer shell advertised; 1 without one.
    fn shell_version(&self) -> (r: u32)
        requires
            self.wf(),
        ensures
            r == self@.layer_shell_version(0),
    {
        let mut i: usize = 0;
        while i < self.globals.len()
            invariant
                i <= self.globals@.len(),
                self.wf(),
                self@.layer_shell_version(0) == self@.layer_shell_version(i as int),
            decreases self.globals@.len() - i,
        {
            let g = &self.globals.as_slice()[i];
            assert(self@.globals[i as int] == g@);
            if str_eq(g.interface.as_str(), Interface::LayerShell.as_str()) {
                return g.version;
            }
            i += 1;
        }
        1
    }

    /// Create the layer surface the launcher paints on.
    pub fn create_layer_surface(&mut self, width: u32, height: u32) -> (r: Result<()>)
        requires
            old(self).wf(),
            old(self)@.ids.room(2),
        ensures
            final(self).wf(),
            ({
                let v = old(self)@;
                if v.bindings.compositor is None {
                    &&& r == Err::<(), Error>(Error::of_msg("wl_compositor not bound"))
                    &&& final(self)@ == v
                } else if v.bindings.layer_shell is None {
                    &&& r == Err::<(), Error>(Error::of_msg("zwlr_layer_shell_v1 not bound"))
                    &&& final(self)@ == v
                } else {
                    let (p, c, ids, ok) = v.present.with_surface(
                        v.socket,
                        v.ids,
                        v.bindings.compositor->0,
                        v.bindings.layer_shell->0,
                        v.interactivity(),
                        width,
                        height,
                    );
                    &&& final(self)@ == (ClientView { present: p, socket: c, ids, ..v })
                    &&& ok ==> r == Ok::<(), Error>(())
                    &&& !ok ==> r == Err::<(), Error>(conn::full())
                }
            }),
    {
        let compositor_id = match self.bindings.compositor {
            Some(id) => id,
            None => {
                return Err(Error::msg("wl_compositor not bound"));
            },
        };
        let layer_shell_id = match self.bindings.layer_shell {
            Some(id) => id,
            None => {
                return Err(Error::msg("zwlr_layer_shell_v1 not bound"));
            },
        };
        let interactivity = if self.shell_version() >= 4 {
            KeyboardInteractivity::OnDemand
        } else {
            KeyboardInteractivity::Exclusive
        };
        self.present.create_surface(
            &mut self.socket,
            &mut self.ids,
            compositor_id,
            layer_shell_id,
            interactivity,
            width,
            height,
        )
    }

    /// Allocate the frames for the current surface size, over the shared memory
    /// behind the descriptors.
    pub fn create_buffer(&mut self, shared: &[RawFd]) -> (r: Result<()>)
        requires
            old(self).wf(),
            old(self)@.ids.room(4),
            shared@.len() == FRAMES,
        ensures
            final(self).wf(),
            ({
                let v = old(self)@;
                match v.bindings.shm {
                    None => {
                        &&& r == Err::<(), Error>(Error::of_msg("wl_shm not bound"))
                        &&& final(self)@ == v
                    },
                    Some(shm) => {
                        let (p, c, ids, done) = v.present.with_new_frames(
                            v.socket,
                            v.ids,
                            shm,
                            shared@,
                        );
                        &&& r == done
                        &&& final(self)@ == (ClientView { present: p, socket: c, ids, ..v })
                    },
                }
            }),
    {
        let shm_id = match self.bindings.shm {
            Some(id) => id,
            None => {
                return Err(Error::msg("wl_shm not bound"));
            },
        };
        self.present.create_frames(&mut self.socket, &mut self.ids, shm_id, shared)
    }

    /// Ask for another size of the layer surface. False when it was already that
    /// size. Otherwise the configure that answers carries the size to draw at,
    /// so the caller handles messages until it comes, or until the compositor
    /// closes the surface instead, and then finishes the resize.
    pub fn resize_surface(&mut self, new_width: u32, new_height: u32) -> (r: Result<bool>)
        requires
            old(self).wf(),
        ensures
            final(self).wf(),
            ({
                let v = old(self)@;
                match v.present.surface {
                    None => {
                        &&& r == Err::<bool, Error>(Error::of_msg("no surface"))
                        &&& final(self)@ == v
                    },
                    Some(s) => if s.width == new_width && s.height == new_height {
                        &&& r == Ok::<bool, Error>(false)
                        &&& final(self)@ == v
                    } else {
                        let (c, ok) = v.socket.put_all(resize_script(s, new_width, new_height));
                        &&& final(self)@ == (ClientView { socket: c, ..v }.with_surface(
                            Surface { configured: false, ..s },
                        ))
                        &&& ok ==> r == Ok::<bool, Error>(true)
                        &&& !ok ==> r == Err::<bool, Error>(conn::full())
                    },
                }
            }),
    {
        let mut s = match self.present.surface {
            Some(s) => s,
            None => {
                return Err(Error::msg("no surface"));
            },
        };
        if s.width == new_width && s.height == new_height {
            return Ok(false);
        }
        let ghost before = s;
        let ghost c0 = self.socket@;
        let ghost script = resize_script(before, new_width, new_height);
        s.configured = false;
        self.present.surface = Some(s);
        let args = [Arg::Uint(new_width), Arg::Uint(new_height)];
        assert(args@ =~= seq![Arg::Uint(new_width), Arg::Uint(new_height)]);
        self.socket.request(s.layer_surface_id, LAYER_SURFACE_SET_SIZE, &args)?;
        assert(c0.put_all(script) == self.socket@.put_from(script, 1));
        let none: [Arg<'static>; 0] = [];
        assert(none@ =~= Seq::<Arg<'static>>::empty());
        self.socket.request(s.id, SURFACE_COMMIT, &none)?;
        assert(c0.put_all(script) == self.socket@.put_from(script, 2));
        self.socket.flush();
        assert(c0.put_all(script) == self.socket@.put_from(script, 3));
        Ok(true)
    }

    /// Whether to go on waiting for the configure of a resize.
    pub fn awaits_configure(&self) -> (r: bool)
        ensures
            r == (self@.running && !(self@.present.surface matches Some(s) && s.configured)),
    {
        self.running && !self.surface_configured()
    }

    /// Replace the frames after a resize. False when the compositor closed the
    /// surface instead of acking.
    pub fn finish_resize(&mut self, shared: &[RawFd]) -> (r: Result<bool>)
        requires
            old(self).wf(),
            old(self)@.ids.room(4),
            shared@.len() == FRAMES,
        ensures
            final(self).wf(),
            ({
                let v = old(self)@;
                if !v.running {
                    &&& r == Ok::<bool, Error>(false)
                    &&& final(self)@ == v
                } else {
                    match v.bindings.shm {
                        None => {
                            &&& r == Err::<bool, Error>(Error::of_msg("wl_shm not bound"))
                            &&& final(self)@ == v
                        },
                        Some(shm) => {
                            let (p, c, ids, done) = v.present.resized(
                                v.socket,
                                v.ids,
                                shm,
                                shared@,
                            );
                            &&& final(self)@ == (ClientView { present: p, socket: c, ids, ..v })
                            &&& match done {
                                Ok(_) => r == Ok::<bool, Error>(true),
                                Err(e) => r == Err::<bool, Error>(e),
                            }
                        },
                    }
                }
            }),
    {
        if !self.running {
            return Ok(false);
        }
        let shm_id = match self.bindings.shm {
            Some(id) => id,
            None => {
                return Err(Error::msg("wl_shm not bound"));
            },
        };
        match self.present.resize_frames(&mut self.socket, &mut self.ids, shm_id, shared) {
            Ok(_) => Ok(true),
            Err(e) => Err(e),
        }
    }

    pub fn surface_configured(&self) -> (r: bool)
        ensures
            r == (self@.present.surface matches Some(s) && s.configured),
    {
        match self.present.surface {
            Some(s) => s.configured,
            None => false,
        }
    }

    /// Show the frame just drawn.
    pub fn render(&mut self) -> (r: Result<()>)
        requires
            old(self).wf(),
        ensures
            final(self).wf(),
            ({
                let (p, c, done) = old(self)@.present.committed(old(self)@.socket);
                &&& r == done
                &&& final(self)@ == (ClientView { present: p, socket: c, ..old(self)@ })
            }),
    {
        self.present.commit(&mut self.socket)
    }

    /// Whether to go on waiting for a frame to draw into. The compositor keeps
    /// reading a frame after the commit that showed it, so if it is still holding
    /// both, the renderer waits rather than paint over what is on screen.
    pub fn awaits_frame(&self) -> (r: bool)
        requires
            self.wf(),
        ensures
            r == (self@.running && !self@.present.is_ready()),
    {
        self.running && !self.present.ready()
    }
}

/// Binding never replaces a binding: an interface bound already stays bound to
/// the same object.
pub proof fn law_bindings_are_kept(v: ClientView, registry: u32, i: int, iface: Interface)
    requires
        v.bindings.bound(iface) is Some,
        0 <= i,
    ensures
        v.with_bindings(registry, i).0.bindings.bound(iface) == v.bindings.bound(iface),
    decreases v.globals.len() - i,
{
    if i < v.globals.len() {
        let (w, ok) = v.with_binding(registry, i);
        assert(w.bindings.bound(iface) == v.bindings.bound(iface));
        if ok {
            law_bindings_are_kept(w, registry, i + 1, iface);
        }
    }
}

/// Every interface advertised ends up bound, when the requests fit.
pub proof fn law_advertised_interfaces_are_bound(v: ClientView, registry: u32, i: int, k: int)
    requires
        0 <= i <= k < v.globals.len(),
        Interface::of_name(v.globals[k].interface) is Some,
        v.with_bindings(registry, i).1,
    ensures
        v.with_bindings(registry, i).0.bindings.bound(
            Interface::of_name(v.globals[k].interface)->0,
        ) is Some,
    decreases v.globals.len() - i,
{
    let iface = Interface::of_name(v.globals[k].interface)->0;
    let (w, ok) = v.with_binding(registry, i);
    if i == k {
        assert(w.bindings.bound(iface) is Some);
        law_bindings_are_kept(w, registry, i + 1, iface);
    } else {
        law_advertised_interfaces_are_bound(w, registry, i + 1, k);
    }
}

} // verus!

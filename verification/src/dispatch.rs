//! What one inbound frame does: first to the callers that wait for it, then
//! to the registry.

use vstd::prelude::*;
use crate::driver::DriverKind;
use crate::frame::{spec_message_identifier, Frame, FrameId};
use crate::identity::DeviceId;
use crate::info::DeviceInfo;
use crate::manager::{DeviceManager, Enumeration};
use crate::roster::{knows, refreshed};
use crate::waiters::{answered, deliver, handed, waiting_on, RepliesWaiting};

verus! {

/// What a frame meant for the registry.
#[derive(Debug, PartialEq, Eq)]
pub enum Discovery {
    /// The frame does not answer a discovery request.
    NotAnnounced,
    /// The frame announces a device, but the registry could not be had: the
    /// announcement is dropped, and the next one is as good.
    Dropped,
    /// The frame announces a known identity, which was refreshed.
    Refreshed(DeviceId),
    /// The frame announces an identity that is not known. The registry is
    /// unchanged; the snapshot waits for a driver of the kind named, if one
    /// exists for its type, and for `register`.
    Unseen { info: DeviceInfo, driver: Option<DriverKind> },
}

/// What the dispatch of one frame hands back.
#[derive(Debug, PartialEq, Eq)]
pub struct Dispatch {
    /// The tokens of the waiters that the frame answered, in the order of
    /// registration, each with what sending the reply to it returned.
    pub delivered: Vec<(u128, bool)>,
    /// What the frame meant for the registry.
    pub discovery: Discovery,
}

impl<D> DeviceManager<D> {
    /// Dispatches one inbound frame of `domain`, which arrived under `id` at
    /// time `now`.
    ///
    /// First everything that waits for the frame's message identifier leaves
    /// `waiters`, and each of these waiters is handed a copy of `message`,
    /// the frame as it goes on to the callers, through `send`, whatever
    /// `send` returns for the others. Then, if the frame
    /// answers a discovery request, the registry takes the announcement as
    /// `on_enumerate_response` does; `devices` is `None` where the registry
    /// cannot be had without waiting, and the announcement is then dropped.
    pub fn on_message<H, M: Clone, F: Fn(H, M) -> bool>(
        devices: Option<&mut DeviceManager<D>>,
        waiters: &mut RepliesWaiting<H>,
        domain: &String,
        id: &FrameId,
        frame: Frame,
        message: &M,
        now: u64,
        send: &F,
    ) -> (out: Dispatch)
        requires
            old(waiters).wf(),
            devices matches Some(manager) ==> manager.wf() && manager@.dom().contains(domain@),
            forall|handle: H, copy: M| call_requires(send, (handle, copy)),
        ensures
            final(waiters).wf(),
            final(waiters)@ == answered(old(waiters)@, spec_message_identifier(*id)),
            out.delivered@.len() == waiting_on(
                old(waiters)@,
                spec_message_identifier(*id),
            ).len(),
            forall|i: int|
                0 <= i < out.delivered@.len() ==> {
                    let waiter = waiting_on(old(waiters)@, spec_message_identifier(*id))[i];
                    (#[trigger] out.delivered@[i]).0 == waiter.0 && handed(
                        *message,
                        waiter.1,
                        send,
                        out.delivered@[i].1,
                    )
                },
            devices matches Some(manager) ==> final(manager).wf() && final(manager).domains()
                == manager.domains(),
            frame.spec_announcement() is None ==> out.discovery == Discovery::NotAnnounced && (
            devices matches Some(manager) ==> *final(manager) == *manager),
            frame.spec_announcement() is Some && devices is None ==> out.discovery
                == Discovery::Dropped,
            frame.spec_announcement() matches Some(info) ==> (devices matches Some(manager) ==> {
                let known = knows(manager@[domain@], info.spec_identity());
                &&& known ==> out.discovery == Discovery::Refreshed(info.spec_identity())
                    && final(manager)@ == manager@.insert(
                    domain@,
                    refreshed(manager@[domain@], info.spec_identity(), info, now),
                )
                &&& !known ==> out.discovery == (Discovery::Unseen {
                    info,
                    driver: DriverKind::spec_select(info.spec_identity(), info.device_type),
                }) && final(manager)@ == manager@
            }),
    {
        let delivered = deliver(waiters.take(id.message_identifier()), message, send);
        let discovery = match frame.announcement() {
            None => Discovery::NotAnnounced,
            Some(info) => match devices {
                None => Discovery::Dropped,
                Some(manager) => match manager.on_enumerate_response(domain, info, now) {
                    Enumeration::Refreshed(known) => Discovery::Refreshed(known),
                    Enumeration::Unseen { info, driver } => Discovery::Unseen { info, driver },
                },
            },
        };
        Dispatch { delivered, discovery }
    }
}

} // verus!

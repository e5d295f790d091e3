use std::cell::RefCell;

use grapple_devices::dispatch::{Discovery, Dispatch};
use grapple_devices::driver::DriverKind;
use grapple_devices::frame::{Frame, FrameId, Payload};
use grapple_devices::identity::DeviceId;
use grapple_devices::info::{DeviceInfo, DeviceType, ModelId};
use grapple_devices::manager::DeviceManager;
use grapple_devices::waiters::RepliesWaiting;

fn can() -> String {
    "can0".to_string()
}

fn discovery_id() -> FrameId {
    FrameId { device_type: 0, fragment_flag: false, ack_flag: false, api_class: 0, api_index: 1, device_id: 0x3F }
}

fn status_id() -> FrameId {
    FrameId { device_type: 6, fragment_flag: false, ack_flag: false, api_class: 0, api_index: 0, device_id: 4 }
}

fn answer(serial: u32, is_dfu: bool, name: &str) -> Frame {
    Frame {
        device_id: 4,
        payload: Payload::EnumerateResponse {
            model_id: ModelId::LaserCan,
            serial,
            is_dfu,
            is_dfu_in_progress: false,
            version: "2024.1.0".to_string(),
            name: name.to_string(),
        },
    }
}

fn snapshot(serial: u32, is_dfu: bool, name: &str) -> DeviceInfo {
    DeviceInfo {
        device_type: DeviceType::Grapple(ModelId::LaserCan),
        firmware_version: Some("2024.1.0".to_string()),
        serial: Some(serial),
        is_dfu,
        is_dfu_in_progress: false,
        name: Some(name.to_string()),
        device_id: Some(4),
    }
}

#[test]
fn a_discovery_answer_that_somebody_waits_for_does_both() {
    let mut manager: DeviceManager<u32> = DeviceManager::new(vec![can()]);
    let mut waiters: RepliesWaiting<&str> = RepliesWaiting::new();
    manager.register(&can(), snapshot(5, false, "front"), 77, 0);
    waiters.register(discovery_id().message_identifier(), 1, "waiter");

    let heard = RefCell::new(Vec::new());
    let Dispatch { delivered, discovery } = DeviceManager::on_message(
        Some(&mut manager),
        &mut waiters,
        &can(),
        &discovery_id(),
        answer(5, false, "renamed"),
        &"payload".to_string(),
        1_000,
        &|handle: &str, copy: String| {
            heard.borrow_mut().push((handle, copy));
            true
        },
    );
    assert_eq!(delivered, vec![(1, true)]);
    assert_eq!(*heard.borrow(), vec![("waiter", "payload".to_string())]);
    assert_eq!(discovery, Discovery::Refreshed(DeviceId::Serial(5)));
    assert_eq!(waiters.len(), 0);
    let listing = manager.devices();
    assert_eq!(listing[0].1.len(), 1);
    assert_eq!(listing[0].1[0].1, snapshot(5, false, "renamed"));
    assert_eq!(*listing[0].1[0].2, 77);
    // The clock restarted at 1000.
    manager.on_tick(5_000);
    assert!(manager.contains(&can(), DeviceId::Serial(5)));
    manager.on_tick(5_001);
    assert!(!manager.contains(&can(), DeviceId::Serial(5)));
}

#[test]
fn a_discovery_answer_of_an_unseen_device_asks_for_its_driver() {
    let mut manager: DeviceManager<u32> = DeviceManager::new(vec![can()]);
    let mut waiters: RepliesWaiting<&str> = RepliesWaiting::new();
    waiters.register(discovery_id().message_identifier(), 1, "waiter");

    let out = DeviceManager::on_message(
        Some(&mut manager),
        &mut waiters,
        &can(),
        &discovery_id(),
        answer(5, true, "front"),
        &"payload".to_string(),
        1_000,
        &|handle: &str, copy: String| handle == "waiter" && copy == "payload",
    );
    assert_eq!(out.delivered, vec![(1, true)]);
    assert_eq!(
        out.discovery,
        Discovery::Unseen {
            info: snapshot(5, true, "front"),
            driver: Some(DriverKind::FirmwareUpgrade { model: ModelId::LaserCan, block_size: 8 }),
        }
    );
    assert!(!manager.contains(&can(), DeviceId::Dfu(5)));
    if let Discovery::Unseen { info, .. } = out.discovery {
        manager.register(&can(), info, 78, 1_000);
    }
    assert_eq!(manager.call(&can(), DeviceId::Dfu(5)), Ok(&78));
}

#[test]
fn a_busy_registry_drops_the_announcement_and_still_answers_the_waiters() {
    let mut waiters: RepliesWaiting<&str> = RepliesWaiting::new();
    waiters.register(discovery_id().message_identifier(), 1, "waiter");
    let out = DeviceManager::<u32>::on_message(
        None,
        &mut waiters,
        &can(),
        &discovery_id(),
        answer(5, false, "front"),
        &"payload".to_string(),
        1_000,
        &|handle: &str, copy: String| handle == "waiter" && copy == "payload",
    );
    assert_eq!(out.delivered, vec![(1, true)]);
    assert_eq!(out.discovery, Discovery::Dropped);
    assert_eq!(waiters.len(), 0);
}

#[test]
fn another_frame_answers_its_waiters_and_leaves_the_registry() {
    let mut manager: DeviceManager<u32> = DeviceManager::new(vec![can()]);
    let mut waiters: RepliesWaiting<&str> = RepliesWaiting::new();
    manager.register(&can(), snapshot(5, false, "front"), 77, 0);
    waiters.register(status_id().message_identifier(), 1, "status");
    waiters.register(discovery_id().message_identifier(), 2, "discovery");

    let out = DeviceManager::on_message(
        Some(&mut manager),
        &mut waiters,
        &can(),
        &status_id(),
        Frame { device_id: 4, payload: Payload::Other },
        &"payload".to_string(),
        3_999,
        &|handle: &str, copy: String| handle == "status" && copy == "payload",
    );
    assert_eq!(out.delivered, vec![(1, true)]);
    assert_eq!(out.discovery, Discovery::NotAnnounced);
    assert_eq!(waiters.len(), 1);
    assert!(waiters.is_waiting(discovery_id().message_identifier()));
    // The clock of the device was not restarted.
    manager.on_tick(4_000);
    assert!(manager.contains(&can(), DeviceId::Serial(5)));
    manager.on_tick(4_001);
    assert!(!manager.contains(&can(), DeviceId::Serial(5)));

    let busy = DeviceManager::<u32>::on_message(
        None,
        &mut waiters,
        &can(),
        &status_id(),
        Frame { device_id: 4, payload: Payload::Other },
        &"payload".to_string(),
        3_999,
        &|_: &str, _: String| true,
    );
    assert!(busy.delivered.is_empty());
    assert_eq!(busy.discovery, Discovery::NotAnnounced);
}

#[test]
fn a_frame_that_nobody_waits_for_answers_nobody() {
    let mut manager: DeviceManager<u32> = DeviceManager::new(vec![can()]);
    let mut waiters: RepliesWaiting<&str> = RepliesWaiting::new();
    waiters.register(status_id().message_identifier(), 1, "status");
    let out = DeviceManager::on_message(
        Some(&mut manager),
        &mut waiters,
        &can(),
        &discovery_id(),
        Frame { device_id: 4, payload: Payload::Other },
        &"payload".to_string(),
        0,
        &|_: &str, _: String| true,
    );
    assert!(out.delivered.is_empty());
    assert_eq!(waiters.len(), 1);
}

#[test]
fn a_waiter_that_gave_up_does_not_keep_the_frame_from_the_others() {
    let mut manager: DeviceManager<u32> = DeviceManager::new(vec![can()]);
    let mut waiters: RepliesWaiting<tokio::sync::oneshot::Sender<Frame>> = RepliesWaiting::new();
    let (gone_tx, gone_rx) = tokio::sync::oneshot::channel();
    let (live_tx, mut live_rx) = tokio::sync::oneshot::channel();
    waiters.register(status_id().message_identifier(), 10, gone_tx);
    waiters.register(status_id().message_identifier(), 20, live_tx);
    drop(gone_rx);

    let frame = Frame { device_id: 4, payload: Payload::Other };
    let out = DeviceManager::on_message(
        Some(&mut manager),
        &mut waiters,
        &can(),
        &status_id(),
        frame.clone(),
        &frame,
        0,
        &|handle: tokio::sync::oneshot::Sender<Frame>, copy: Frame| handle.send(copy).is_ok(),
    );
    assert_eq!(out.delivered, vec![(10, false), (20, true)]);
    assert_eq!(live_rx.try_recv(), Ok(frame));
    assert_eq!(waiters.len(), 0);
}

use grapple_devices::driver::DriverKind;
use grapple_devices::identity::DeviceId;
use grapple_devices::info::{DeviceInfo, DeviceType, ModelId};
use grapple_devices::manager::{CallError, DeviceManager, Enumeration};
use grapple_devices::roster::{is_live, STALE_AFTER_MILLIS};

/// A driver that can be told from every other by its marker.
#[derive(Debug, PartialEq)]
struct Marked {
    marker: u32,
}

impl Marked {
    fn rpc_call(&self, data: serde_json::Value) -> Result<serde_json::Value, String> {
        let mut ping = serde_json::Map::new();
        ping.insert("op".to_string(), serde_json::Value::String("ping".to_string()));
        if data == serde_json::Value::Object(ping) {
            let mut pong = serde_json::Map::new();
            pong.insert("pong".to_string(), serde_json::Value::Bool(true));
            Ok(serde_json::Value::Object(pong))
        } else {
            Err(format!("driver {} does not know this operation", self.marker))
        }
    }

    fn device_class(&self) -> &str {
        "Marked"
    }
}

fn can() -> String {
    "can0".to_string()
}

fn info(model: ModelId, is_dfu: bool, serial: u32, name: &str) -> DeviceInfo {
    DeviceInfo {
        device_type: DeviceType::Grapple(model),
        firmware_version: Some("2024.1.0".to_string()),
        serial: Some(serial),
        is_dfu,
        is_dfu_in_progress: false,
        name: Some(name.to_string()),
        device_id: Some(3),
    }
}

/// Announces a device as the dispatcher does: a known one is refreshed, an
/// unseen one gets a driver with the marker given.
fn announce(manager: &mut DeviceManager<Marked>, domain: &String, info: DeviceInfo, marker: u32, now: u64) {
    match manager.on_enumerate_response(domain, info, now) {
        Enumeration::Refreshed(_) => {}
        Enumeration::Unseen { info, driver } => {
            assert!(driver.is_some());
            assert_eq!(manager.register(domain, info, Marked { marker }, now), None);
        }
    }
}

fn ids(manager: &DeviceManager<Marked>, domain: &String) -> Vec<DeviceId> {
    manager.drivers(domain).into_iter().map(|(id, _)| id).collect()
}

#[test]
fn a_new_registry_has_its_domains_and_no_devices() {
    let manager: DeviceManager<Marked> = DeviceManager::new(vec!["can0".to_string(), "can1".to_string()]);
    assert!(manager.has_domain(&"can0".to_string()));
    assert!(manager.has_domain(&"can1".to_string()));
    assert!(!manager.has_domain(&"can2".to_string()));
    let listing = manager.devices();
    assert_eq!(listing.len(), 2);
    assert_eq!(listing[0].0, "can0");
    assert_eq!(listing[1].0, "can1");
    assert!(listing[0].1.is_empty());
    assert!(listing[1].1.is_empty());
}

#[test]
fn a_domain_named_twice_is_configured_once() {
    let manager: DeviceManager<Marked> =
        DeviceManager::new(vec!["b".to_string(), "a".to_string(), "b".to_string(), "a".to_string()]);
    let listing = manager.devices();
    let names: Vec<&str> = listing.iter().map(|(name, _)| name.as_str()).collect();
    assert_eq!(names, vec!["b", "a"]);
}

#[test]
fn a_registry_without_domains_lists_nothing() {
    let mut manager: DeviceManager<Marked> = DeviceManager::new(Vec::new());
    assert!(manager.devices().is_empty());
    assert!(!manager.has_domain(&can()));
    manager.on_tick(10_000);
    manager.reset();
    assert!(manager.devices().is_empty());
}

#[test]
fn an_unseen_identity_changes_nothing_until_it_is_registered() {
    let mut manager: DeviceManager<Marked> = DeviceManager::new(vec![can()]);
    let announced = info(ModelId::LaserCan, false, 5, "front");
    let outcome = manager.on_enumerate_response(&can(), announced.snapshot(), 100);
    assert_eq!(
        outcome,
        Enumeration::Unseen {
            info: announced.snapshot(),
            driver: Some(DriverKind::VersionGated { model: ModelId::LaserCan }),
        }
    );
    assert!(!manager.contains(&can(), DeviceId::Serial(5)));
    assert_eq!(manager.register(&can(), announced, Marked { marker: 1 }, 100), None);
    assert!(manager.contains(&can(), DeviceId::Serial(5)));
    assert!(!manager.contains(&can(), DeviceId::Dfu(5)));
}

#[test]
fn registering_a_known_identity_refreshes_it_and_hands_the_driver_back() {
    let mut manager: DeviceManager<Marked> = DeviceManager::new(vec![can()]);
    assert_eq!(manager.register(&can(), info(ModelId::LaserCan, false, 5, "front"), Marked { marker: 1 }, 100), None);
    assert_eq!(
        manager.register(&can(), info(ModelId::LaserCan, false, 5, "renamed"), Marked { marker: 2 }, 3_000),
        Some(Marked { marker: 2 })
    );
    let listing = manager.devices();
    assert_eq!(listing[0].1.len(), 1);
    assert_eq!(listing[0].1[0].0, DeviceId::Serial(5));
    assert_eq!(listing[0].1[0].1, info(ModelId::LaserCan, false, 5, "renamed"));
    assert_eq!(listing[0].1[0].2.marker, 1);
    manager.on_tick(7_000);
    assert!(manager.contains(&can(), DeviceId::Serial(5)));
    manager.on_tick(7_001);
    assert!(!manager.contains(&can(), DeviceId::Serial(5)));
}

#[test]
fn an_unseen_unit_in_recovery_asks_for_the_firmware_upgrade_driver() {
    let mut manager: DeviceManager<Marked> = DeviceManager::new(vec![can()]);
    let announced = info(ModelId::MitoCANdria, true, 5, "pdp");
    assert_eq!(
        manager.on_enumerate_response(&can(), announced.snapshot(), 100),
        Enumeration::Unseen {
            info: announced,
            driver: Some(DriverKind::FirmwareUpgrade { model: ModelId::MitoCANdria, block_size: 64 }),
        }
    );
}

#[test]
fn an_unseen_model_without_a_driver_names_none() {
    let mut manager: DeviceManager<Marked> = DeviceManager::new(vec![can()]);
    let announced = info(ModelId::SpiderLan, false, 5, "lan");
    assert_eq!(
        manager.on_enumerate_response(&can(), announced.snapshot(), 100),
        Enumeration::Unseen { info: announced, driver: None }
    );
}

#[test]
fn a_known_identity_is_refreshed_and_keeps_its_driver() {
    let mut manager: DeviceManager<Marked> = DeviceManager::new(vec![can()]);
    announce(&mut manager, &can(), info(ModelId::LaserCan, false, 5, "front"), 1, 100);
    announce(&mut manager, &can(), info(ModelId::LaserCan, false, 6, "rear"), 2, 150);

    let renamed = info(ModelId::LaserCan, false, 5, "renamed");
    assert_eq!(
        manager.on_enumerate_response(&can(), renamed.snapshot(), 3_000),
        Enumeration::Refreshed(DeviceId::Serial(5))
    );

    let listing = manager.devices();
    assert_eq!(listing.len(), 1);
    let devices = &listing[0].1;
    assert_eq!(devices.len(), 2);
    assert_eq!(devices[0].0, DeviceId::Serial(5));
    assert_eq!(devices[0].1, renamed);
    assert_eq!(devices[0].2.marker, 1);
    assert_eq!(devices[1].0, DeviceId::Serial(6));
    assert_eq!(devices[1].1, info(ModelId::LaserCan, false, 6, "rear"));
    assert_eq!(devices[1].2.marker, 2);

    // The refresh restarted the clock of serial 5 only.
    manager.on_tick(4_150);
    assert_eq!(ids(&manager, &can()), vec![DeviceId::Serial(5), DeviceId::Serial(6)]);
    manager.on_tick(4_151);
    assert_eq!(ids(&manager, &can()), vec![DeviceId::Serial(5)]);
}

#[test]
fn an_identity_announced_many_times_stands_once() {
    let mut manager: DeviceManager<Marked> = DeviceManager::new(vec![can()]);
    for round in 0..10u32 {
        announce(&mut manager, &can(), info(ModelId::LaserCan, false, 5, "front"), round, 100 * round as u64);
    }
    assert_eq!(ids(&manager, &can()), vec![DeviceId::Serial(5)]);
    assert_eq!(manager.call(&can(), DeviceId::Serial(5)).unwrap().marker, 0);
}

#[test]
fn a_serial_that_changes_mode_leaves_one_identity() {
    let mut manager: DeviceManager<Marked> = DeviceManager::new(vec![can()]);
    announce(&mut manager, &can(), info(ModelId::LaserCan, false, 5, "front"), 1, 100);
    announce(&mut manager, &can(), info(ModelId::LaserCan, false, 6, "rear"), 2, 100);

    announce(&mut manager, &can(), info(ModelId::LaserCan, true, 5, "front"), 3, 200);
    assert_eq!(ids(&manager, &can()), vec![DeviceId::Serial(6), DeviceId::Dfu(5)]);
    assert!(!manager.contains(&can(), DeviceId::Serial(5)));
    assert_eq!(manager.call(&can(), DeviceId::Dfu(5)).unwrap().marker, 3);

    announce(&mut manager, &can(), info(ModelId::LaserCan, false, 5, "front"), 4, 300);
    assert_eq!(ids(&manager, &can()), vec![DeviceId::Serial(6), DeviceId::Serial(5)]);
    assert!(!manager.contains(&can(), DeviceId::Dfu(5)));
    assert_eq!(manager.call(&can(), DeviceId::Serial(5)).unwrap().marker, 4);
}

#[test]
fn the_same_identity_lives_in_two_domains_independently() {
    let (a, b) = ("can0".to_string(), "can1".to_string());
    let mut manager: DeviceManager<Marked> = DeviceManager::new(vec![a.clone(), b.clone()]);
    announce(&mut manager, &a, info(ModelId::LaserCan, false, 5, "front"), 1, 100);
    announce(&mut manager, &b, info(ModelId::LaserCan, true, 5, "front"), 2, 100);
    assert_eq!(ids(&manager, &a), vec![DeviceId::Serial(5)]);
    assert_eq!(ids(&manager, &b), vec![DeviceId::Dfu(5)]);
    assert_eq!(manager.call(&a, DeviceId::Serial(5)).unwrap().marker, 1);
    assert_eq!(manager.call(&b, DeviceId::Dfu(5)).unwrap().marker, 2);
    assert_eq!(manager.call(&b, DeviceId::Serial(5)), Err(CallError::NoSuchDevice(DeviceId::Serial(5))));
}

#[test]
fn liveness_ends_after_four_seconds() {
    assert_eq!(STALE_AFTER_MILLIS, 4000);
    assert!(is_live(1_000, 1_000));
    assert!(is_live(1_000, 4_999));
    assert!(is_live(1_000, 5_000));
    assert!(!is_live(1_000, 5_001));
    assert!(!is_live(1_000, 9_000));
    assert!(is_live(0, 4_000));
    assert!(!is_live(0, 4_001));
    assert!(!is_live(0, u64::MAX));
    // A clock reading before the announcement counts as no time at all.
    assert!(is_live(1_000, 0));
    assert!(is_live(u64::MAX, 0));
}

#[test]
fn a_tick_evicts_what_was_silent_for_more_than_four_seconds() {
    let mut manager: DeviceManager<Marked> = DeviceManager::new(vec![can()]);
    announce(&mut manager, &can(), info(ModelId::LaserCan, false, 1, "a"), 1, 1_000);
    announce(&mut manager, &can(), info(ModelId::LaserCan, false, 2, "b"), 2, 2_000);
    announce(&mut manager, &can(), info(ModelId::LaserCan, false, 3, "c"), 3, 1_000);
    announce(&mut manager, &can(), info(ModelId::LaserCan, false, 4, "d"), 4, 3_000);

    // Serials 1 and 3 are exactly four seconds old: they stay.
    manager.on_tick(5_000);
    assert_eq!(
        ids(&manager, &can()),
        vec![DeviceId::Serial(1), DeviceId::Serial(2), DeviceId::Serial(3), DeviceId::Serial(4)]
    );

    manager.on_tick(5_001);
    assert_eq!(ids(&manager, &can()), vec![DeviceId::Serial(2), DeviceId::Serial(4)]);
    assert_eq!(manager.call(&can(), DeviceId::Serial(2)).unwrap().marker, 2);
    assert_eq!(manager.call(&can(), DeviceId::Serial(4)).unwrap().marker, 4);

    manager.on_tick(6_500);
    assert_eq!(ids(&manager, &can()), vec![DeviceId::Serial(4)]);

    manager.on_tick(7_000);
    assert_eq!(ids(&manager, &can()), vec![DeviceId::Serial(4)]);

    manager.on_tick(7_001);
    assert!(ids(&manager, &can()).is_empty());
    assert!(manager.devices()[0].1.is_empty());
}

#[test]
fn a_tick_sweeps_every_domain() {
    let (a, b) = ("can0".to_string(), "can1".to_string());
    let mut manager: DeviceManager<Marked> = DeviceManager::new(vec![a.clone(), b.clone()]);
    announce(&mut manager, &a, info(ModelId::LaserCan, false, 1, "a"), 1, 0);
    announce(&mut manager, &a, info(ModelId::LaserCan, false, 2, "b"), 2, 3_000);
    announce(&mut manager, &b, info(ModelId::LaserCan, false, 1, "a"), 3, 0);
    manager.on_tick(4_000);
    assert_eq!(ids(&manager, &a), vec![DeviceId::Serial(1), DeviceId::Serial(2)]);
    assert_eq!(ids(&manager, &b), vec![DeviceId::Serial(1)]);
    manager.on_tick(4_001);
    assert_eq!(ids(&manager, &a), vec![DeviceId::Serial(2)]);
    assert!(ids(&manager, &b).is_empty());
}

#[test]
fn a_tick_is_idempotent() {
    let mut manager: DeviceManager<Marked> = DeviceManager::new(vec![can()]);
    announce(&mut manager, &can(), info(ModelId::LaserCan, false, 1, "a"), 1, 0);
    announce(&mut manager, &can(), info(ModelId::LaserCan, false, 2, "b"), 2, 3_000);
    manager.on_tick(5_000);
    let once = ids(&manager, &can());
    manager.on_tick(5_000);
    assert_eq!(ids(&manager, &can()), once);
    assert_eq!(once, vec![DeviceId::Serial(2)]);
}

#[test]
fn an_evicted_identity_is_unseen_again() {
    let mut manager: DeviceManager<Marked> = DeviceManager::new(vec![can()]);
    announce(&mut manager, &can(), info(ModelId::LaserCan, false, 1, "a"), 1, 0);
    manager.on_tick(4_001);
    assert!(!manager.contains(&can(), DeviceId::Serial(1)));
    announce(&mut manager, &can(), info(ModelId::LaserCan, false, 1, "a"), 2, 4_100);
    assert_eq!(manager.call(&can(), DeviceId::Serial(1)).unwrap().marker, 2);
}

#[test]
fn reset_forgets_the_devices_and_keeps_the_domains() {
    let (a, b) = ("can0".to_string(), "can1".to_string());
    let mut manager: DeviceManager<Marked> = DeviceManager::new(vec![a.clone(), b.clone()]);
    announce(&mut manager, &a, info(ModelId::LaserCan, false, 1, "a"), 1, 0);
    announce(&mut manager, &b, info(ModelId::MitoCANdria, true, 2, "b"), 2, 0);
    manager.reset();
    assert!(manager.has_domain(&a));
    assert!(manager.has_domain(&b));
    let listing = manager.devices();
    assert_eq!(listing.len(), 2);
    assert!(listing[0].1.is_empty());
    assert!(listing[1].1.is_empty());
    assert_eq!(manager.call(&a, DeviceId::Serial(1)), Err(CallError::NoSuchDevice(DeviceId::Serial(1))));
}

#[test]
fn a_call_for_an_identity_that_is_not_there_names_it() {
    let mut manager: DeviceManager<Marked> = DeviceManager::new(vec![can()]);
    assert_eq!(manager.call(&can(), DeviceId::Serial(9)), Err(CallError::NoSuchDevice(DeviceId::Serial(9))));
    announce(&mut manager, &can(), info(ModelId::LaserCan, false, 9, "a"), 1, 0);
    assert_eq!(manager.call(&can(), DeviceId::Dfu(9)), Err(CallError::NoSuchDevice(DeviceId::Dfu(9))));
    assert_eq!(manager.call(&can(), DeviceId::Serial(8)), Err(CallError::NoSuchDevice(DeviceId::Serial(8))));
}

#[test]
fn a_call_reaches_the_driver_and_returns_what_the_driver_returns() {
    let mut manager: DeviceManager<Marked> = DeviceManager::new(vec![can()]);
    announce(&mut manager, &can(), info(ModelId::LaserCan, false, 9, "a"), 7, 0);

    let mut ping = serde_json::Map::new();
    ping.insert("op".to_string(), serde_json::Value::String("ping".to_string()));
    let mut pong = serde_json::Map::new();
    pong.insert("pong".to_string(), serde_json::Value::Bool(true));

    let driver = manager.call(&can(), DeviceId::Serial(9)).unwrap();
    assert_eq!(driver.rpc_call(serde_json::Value::Object(ping)), Ok(serde_json::Value::Object(pong)));
    assert_eq!(
        driver.rpc_call(serde_json::Value::Null),
        Err("driver 7 does not know this operation".to_string())
    );
}

#[test]
fn the_listing_gives_identity_snapshot_and_driver_in_roster_order() {
    let mut manager: DeviceManager<Marked> = DeviceManager::new(vec![can()]);
    announce(&mut manager, &can(), info(ModelId::MitoCANdria, true, 2, "pdp"), 1, 0);
    announce(&mut manager, &can(), info(ModelId::LaserCan, false, 1, "front"), 2, 0);
    let listing = manager.devices();
    let rows: Vec<(DeviceId, DeviceInfo, String)> = listing[0]
        .1
        .iter()
        .map(|(id, info, driver)| (*id, info.snapshot(), driver.device_class().to_owned()))
        .collect();
    assert_eq!(
        rows,
        vec![
            (DeviceId::Dfu(2), info(ModelId::MitoCANdria, true, 2, "pdp"), "Marked".to_string()),
            (DeviceId::Serial(1), info(ModelId::LaserCan, false, 1, "front"), "Marked".to_string()),
        ]
    );
    let drivers = manager.drivers(&can());
    assert_eq!(drivers.len(), 2);
    assert_eq!(drivers[0], (DeviceId::Dfu(2), &Marked { marker: 1 }));
    assert_eq!(drivers[1], (DeviceId::Serial(1), &Marked { marker: 2 }));
}

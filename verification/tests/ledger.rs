use hexagon_island::error::{ErrorKind, GameError};
use hexagon_island::games::hexagon::resources::{Resource, ResourceList};

fn counts(list: &ResourceList) -> (u16, u16, u16, u16, u16) {
    (list.block, list.rock, list.timber, list.fiber, list.cereal)
}

#[test]
fn resource_lists() {
    let mut resource_list = ResourceList::new();
    assert_eq!(counts(&resource_list), (0, 0, 0, 0, 0));

    let _status = resource_list.deposit([Resource::Block]);
    assert_eq!(counts(&resource_list), (1, 0, 0, 0, 0));

    let _status = resource_list.deposit([Resource::Rock]);
    let _status = resource_list.deposit([Resource::Timber]);
    let _status = resource_list.deposit([Resource::Fiber]);
    let _status = resource_list.deposit([Resource::Cereal]);
    assert_eq!(counts(&resource_list), (1, 1, 1, 1, 1));

    let _status = resource_list.deduct([Resource::Block, Resource::Rock, Resource::Timber]);
    assert_eq!(counts(&resource_list), (0, 0, 0, 1, 1));
}

#[test]
fn resource_list_errors() {
    let mut resource_list = ResourceList::new();
    let attempt = resource_list.deposit([Resource::Desert]);
    assert_eq!(attempt, Err(GameError::DesertDeposit));
    assert_eq!(attempt.unwrap_err().message(), "Can't deposit Desert resources.");
    let attempt = resource_list.deduct([Resource::Desert]);
    assert_eq!(attempt, Err(GameError::DesertDeduct));
    assert_eq!(attempt.unwrap_err().message(), "Can't deduct Desert resources.");
}

#[test]
fn credit_check() {
    let mut resource_list = ResourceList::new();
    let check = resource_list.check([Resource::Block, Resource::Block, Resource::Timber]);
    assert!(check == false);
    let _status = resource_list.deposit([Resource::Block]);
    let _status = resource_list.deposit([Resource::Timber]);
    let check = resource_list.check([Resource::Block, Resource::Block, Resource::Timber]);
    assert!(check == false);
    let _status = resource_list.deposit([Resource::Block]);
    let check = resource_list.check([Resource::Block, Resource::Block, Resource::Timber]);
    assert!(check == true);
    let _status = resource_list.deposit([Resource::Block]);
    let _status = resource_list.deposit([Resource::Timber]);
    let check = resource_list.check([Resource::Block, Resource::Block, Resource::Timber]);
    assert!(check == true);
}

#[test]
fn deposit_then_deduct_restores_the_ledger() {
    let mut list = ResourceList { block: 4, rock: 0, timber: 7, fiber: 1, cereal: 65535 };
    let before = list;
    let batch = [Resource::Block, Resource::Fiber, Resource::Fiber, Resource::Rock];
    assert_eq!(list.deposit(batch), Ok(()));
    assert_eq!(counts(&list), (5, 1, 7, 3, 65535));
    assert_eq!(list.deduct(batch), Ok(()));
    assert_eq!(list, before);
}

#[test]
fn deduct_never_overdraws() {
    let mut list = ResourceList { block: 1, rock: 2, timber: 0, fiber: 0, cereal: 0 };
    let attempt = list.deduct([Resource::Rock, Resource::Block, Resource::Block]);
    assert_eq!(attempt, Err(GameError::InsufficientResources));
    assert_eq!(attempt.unwrap_err().message(), "Can't deduct; not enough resources.");
    assert_eq!(counts(&list), (1, 2, 0, 0, 0));
    assert_eq!(list.deduct([Resource::Timber]), Err(GameError::InsufficientResources));
    assert_eq!(counts(&list), (1, 2, 0, 0, 0));
}

#[test]
fn desert_in_a_batch_changes_nothing() {
    let mut list = ResourceList { block: 3, rock: 3, timber: 3, fiber: 3, cereal: 3 };
    assert_eq!(
        list.deposit([Resource::Block, Resource::Desert, Resource::Rock]),
        Err(GameError::DesertDeposit)
    );
    assert_eq!(counts(&list), (3, 3, 3, 3, 3));
    assert_eq!(
        list.deduct([Resource::Block, Resource::Desert, Resource::Rock]),
        Err(GameError::DesertDeduct)
    );
    assert_eq!(counts(&list), (3, 3, 3, 3, 3));
    assert!(!list.check([Resource::Desert]));
}

#[test]
fn a_full_counter_refuses_more() {
    let mut list = ResourceList { block: 65534, rock: 0, timber: 0, fiber: 0, cereal: 0 };
    assert_eq!(
        list.deposit([Resource::Block, Resource::Rock, Resource::Block]),
        Err(GameError::ResourceLimit)
    );
    assert_eq!(counts(&list), (65534, 0, 0, 0, 0));
    assert_eq!(list.deposit([Resource::Block]), Ok(()));
    assert_eq!(counts(&list), (65535, 0, 0, 0, 0));
    assert_eq!(GameError::ResourceLimit.kind(), ErrorKind::Resource);
}

#[test]
fn trade_three_for_one() {
    let mut list = ResourceList { block: 3, rock: 0, timber: 5, fiber: 0, cereal: 0 };
    assert_eq!(list.trade(Resource::Block, Resource::Cereal), Ok(()));
    assert_eq!(counts(&list), (0, 0, 5, 0, 1));
    assert_eq!(list.trade(Resource::Timber, Resource::Timber), Ok(()));
    assert_eq!(counts(&list), (0, 0, 3, 0, 1));
}

#[test]
fn trade_fails_cleanly() {
    let mut list = ResourceList { block: 2, rock: 9, timber: 0, fiber: 0, cereal: 65535 };
    assert_eq!(
        list.trade(Resource::Block, Resource::Rock),
        Err(GameError::InsufficientResources)
    );
    assert_eq!(counts(&list), (2, 9, 0, 0, 65535));
    assert_eq!(list.trade(Resource::Rock, Resource::Desert), Err(GameError::DesertDeposit));
    assert_eq!(counts(&list), (2, 9, 0, 0, 65535));
    assert_eq!(list.trade(Resource::Desert, Resource::Rock), Err(GameError::DesertDeduct));
    assert_eq!(counts(&list), (2, 9, 0, 0, 65535));
    assert_eq!(list.trade(Resource::Rock, Resource::Cereal), Err(GameError::ResourceLimit));
    assert_eq!(counts(&list), (2, 9, 0, 0, 65535));
}

#[test]
fn ledger_as_array_and_count() {
    let list = ResourceList { block: 1, rock: 2, timber: 3, fiber: 4, cereal: 5 };
    assert_eq!(
        list.to_array(),
        [
            (Resource::Block, 1),
            (Resource::Rock, 2),
            (Resource::Timber, 3),
            (Resource::Fiber, 4),
            (Resource::Cereal, 5)
        ]
    );
    assert_eq!(list.count(), 15);
    let full = ResourceList { block: 65535, rock: 65535, timber: 65535, fiber: 65535, cereal: 65535 };
    assert_eq!(full.count(), 327675);
}

#[test]
fn error_kinds() {
    assert_eq!(GameError::NotYourTurn.kind(), ErrorKind::Turn);
    assert_eq!(GameError::ActionNotAllowed.kind(), ErrorKind::Phase);
    assert_eq!(GameError::NotInSetupOrPlay.kind(), ErrorKind::Phase);
    assert_eq!(GameError::RoadOccupied.kind(), ErrorKind::Target);
    assert_eq!(GameError::TwoSpaceRule.kind(), ErrorKind::Target);
    assert_eq!(GameError::InsufficientResources.kind(), ErrorKind::Resource);
    assert_eq!(GameError::DesertDeposit.kind(), ErrorKind::Resource);
    assert_eq!(GameError::SetupSelection.kind(), ErrorKind::Structure);
    assert_eq!(GameError::NoTradeSpecified.kind(), ErrorKind::Structure);
}

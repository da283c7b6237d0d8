use kabalist::quantity::{parse_quantity, render_quantity};
use kabalist::store::Store;
use kabalist::types::{Empty, Error, ListStatus, RspData, RspErr};

const OWNER: u128 = 11;
const GUEST: u128 = 22;
const OTHER: u128 = 33;
const LIST: u128 = 1001;

fn store_with_list() -> Store {
    let mut s = Store::new();
    assert_eq!(s.create_list_with_id(OWNER, "Groceries".to_string(), LIST), Ok(LIST));
    s
}

fn amounts(s: &Store, user: u128, list: u128) -> Vec<(String, Option<String>)> {
    let (items, _) = s.read_list(user, list).ok().unwrap();
    items.into_iter().map(|i| (i.name, i.amount)).collect()
}

#[test]
fn refill_then_consume_restores_stock() {
    let mut s = store_with_list();
    let eggs = s.add_to_pantry(OWNER, LIST, "Eggs".to_string(), Some(12)).unwrap();
    assert!(s.refill_pantry(OWNER, LIST).is_ok());
    let (items, readonly) = s.read_list(OWNER, LIST).ok().unwrap();
    assert!(!readonly);
    assert_eq!(items.len(), 1);
    assert_eq!(items[0].name, "Eggs");
    assert_eq!(items[0].amount, Some("12".to_string()));
    assert_eq!(s.items[0].from_pantry, Some(eggs));
    assert!(s.delete_item(OWNER, LIST, items[0].id).is_ok());
    let pantry = s.get_pantry(OWNER, LIST).ok().unwrap();
    assert_eq!(pantry.len(), 1);
    assert_eq!(pantry[0].amount, 12);
    assert_eq!(pantry[0].target, Some(12));
    assert!(s.read_list(OWNER, LIST).ok().unwrap().0.is_empty());
}

#[test]
fn readonly_share_reads_but_cannot_write() {
    let mut s = store_with_list();
    let id = s.add_item(OWNER, LIST, "Milk".to_string(), Some("1".to_string()), 5).unwrap();
    assert!(s.share_list(OWNER, LIST, GUEST, true).is_ok());
    assert_eq!(s.resolve(GUEST, LIST), Some(ListStatus::SharedRead));
    assert_eq!(
        s.update_item(GUEST, LIST, id, Some("Cream".to_string()), None),
        Err(Error::NotAuthorized)
    );
    assert_eq!(s.delete_item(GUEST, LIST, id), Err(Error::NotAuthorized));
    assert_eq!(s.add_item(GUEST, LIST, "Tea".to_string(), None, 6), Err(Error::NotAuthorized));
    assert_eq!(s.refill_pantry(GUEST, LIST), Err(Error::NotAuthorized));
    let (items, readonly) = s.read_list(GUEST, LIST).ok().unwrap();
    assert!(readonly);
    assert_eq!(items.len(), 1);
    assert_eq!(items[0].name, "Milk");
}

#[test]
fn write_share_may_write() {
    let mut s = store_with_list();
    assert!(s.share_list(OWNER, LIST, GUEST, false).is_ok());
    assert_eq!(s.resolve(GUEST, LIST), Some(ListStatus::SharedWrite));
    let id = s.add_item(GUEST, LIST, "Bread".to_string(), None, 1).unwrap();
    assert!(s.update_item(GUEST, LIST, id, None, Some("2".to_string())).is_ok());
    assert_eq!(amounts(&s, GUEST, LIST), vec![("Bread".to_string(), Some("2".to_string()))]);
    assert!(!s.read_list(GUEST, LIST).ok().unwrap().1);
    assert!(s.share_list(OWNER, LIST, GUEST, true).is_ok());
    assert_eq!(s.shares.len(), 1);
    assert_eq!(s.delete_item(GUEST, LIST, id), Err(Error::NotAuthorized));
}

#[test]
fn stranger_and_missing_list() {
    let s = store_with_list();
    assert_eq!(s.resolve(OTHER, LIST), None);
    assert!(matches!(s.read_list(OTHER, LIST), Err(Error::NotAuthorized)));
    assert!(matches!(s.read_list(OWNER, 999), Err(Error::NotFound)));
    assert!(matches!(s.get_pantry(OTHER, LIST), Err(Error::NotAuthorized)));
    assert_eq!(s.require_access(OWNER, LIST, true), Ok(()));
    assert_eq!(s.require_owner(OTHER, LIST), Err(Error::NotAuthorized));
}

#[test]
fn list_names_are_unique_per_owner() {
    let mut s = store_with_list();
    assert_eq!(s.create_list_with_id(OTHER, "Groceries".to_string(), 2002), Ok(2002));
    assert_eq!(
        s.create_list_with_id(OWNER, "Groceries".to_string(), 3003),
        Err(Error::AlreadyExists)
    );
    assert_eq!(s.create_list(OWNER, "Groceries".to_string()), Err(Error::AlreadyExists));
    assert_eq!(s.lists.len(), 2);
    assert_eq!(
        s.create_list_with_id(OWNER, "Hardware".to_string(), 2002),
        Err(Error::InternalError)
    );
    let fresh = s.create_list(OWNER, "Hardware".to_string()).unwrap();
    assert!(s.resolve(OWNER, fresh) == Some(ListStatus::Owned));
}

#[test]
fn deleting_a_list_removes_everything() {
    let mut s = store_with_list();
    let other = s.create_list_with_id(OWNER, "Party".to_string(), 4004).unwrap();
    s.add_item(OWNER, LIST, "Milk".to_string(), None, 1).unwrap();
    s.add_item(OWNER, other, "Cake".to_string(), None, 1).unwrap();
    s.add_to_pantry(OWNER, LIST, "Eggs".to_string(), Some(6)).unwrap();
    s.share_list(OWNER, LIST, GUEST, false).unwrap();
    assert_eq!(s.delete_list(GUEST, LIST), Err(Error::NotAuthorized));
    assert_eq!(s.delete_list(OWNER, LIST), Ok(()));
    assert!(matches!(s.read_list(OWNER, LIST), Err(Error::NotFound)));
    assert!(matches!(s.get_pantry(OWNER, LIST), Err(Error::NotFound)));
    assert!(matches!(s.read_list(GUEST, LIST), Err(Error::NotFound)));
    assert!(s.shares.is_empty());
    assert!(s.pantry.is_empty());
    assert_eq!(s.history.len(), 1);
    assert_eq!(amounts(&s, OWNER, other), vec![("Cake".to_string(), None)]);
    assert_eq!(s.delete_list(OWNER, LIST), Err(Error::NotAuthorized));
}

#[test]
fn second_delete_of_an_item_is_not_found() {
    let mut s = store_with_list();
    let p = s.add_to_pantry(OWNER, LIST, "Rice".to_string(), Some(3)).unwrap();
    s.set_pantry_item(OWNER, LIST, p, Some(1), None).unwrap();
    s.refill_pantry(OWNER, LIST).unwrap();
    let id = s.read_list(OWNER, LIST).ok().unwrap().0[0].id;
    assert_eq!(s.delete_item(OWNER, LIST, id), Ok(()));
    assert_eq!(s.delete_item(OWNER, LIST, id), Err(Error::NotFound));
    assert_eq!(s.get_pantry(OWNER, LIST).ok().unwrap()[0].amount, 3);
}

#[test]
fn unlinked_delete_keeps_pantry() {
    let mut s = store_with_list();
    s.add_to_pantry(OWNER, LIST, "Rice".to_string(), Some(3)).unwrap();
    let id = s.add_item(OWNER, LIST, "Rice".to_string(), Some("5".to_string()), 1).unwrap();
    assert_eq!(s.delete_item(OWNER, LIST, id), Ok(()));
    assert_eq!(s.get_pantry(OWNER, LIST).ok().unwrap()[0].amount, 0);
}

#[test]
fn unparsable_amount_credits_nothing() {
    let mut s = store_with_list();
    let p = s.add_to_pantry(OWNER, LIST, "Salt".to_string(), Some(2)).unwrap();
    s.refill_pantry(OWNER, LIST).unwrap();
    let id = s.read_list(OWNER, LIST).ok().unwrap().0[0].id;
    s.update_item(OWNER, LIST, id, None, Some("a pinch".to_string())).unwrap();
    assert_eq!(s.delete_item(OWNER, LIST, id), Ok(()));
    let pantry = s.get_pantry(OWNER, LIST).ok().unwrap();
    assert_eq!(pantry[0].id, p);
    assert_eq!(pantry[0].amount, 0);
}

#[test]
fn credit_overflow_changes_nothing() {
    let mut s = store_with_list();
    let p = s.add_to_pantry(OWNER, LIST, "Sand".to_string(), Some(5)).unwrap();
    s.refill_pantry(OWNER, LIST).unwrap();
    s.set_pantry_item(OWNER, LIST, p, Some(4294967295), None).unwrap();
    let id = s.read_list(OWNER, LIST).ok().unwrap().0[0].id;
    assert_eq!(s.delete_item(OWNER, LIST, id), Err(Error::InternalError));
    assert_eq!(s.items.len(), 1);
    assert_eq!(s.get_pantry(OWNER, LIST).ok().unwrap()[0].amount, 4294967295);
}

#[test]
fn refill_covers_only_shortfalls() {
    let mut s = store_with_list();
    let a = s.add_to_pantry(OWNER, LIST, "Apples".to_string(), Some(10)).unwrap();
    let b = s.add_to_pantry(OWNER, LIST, "Beans".to_string(), Some(2)).unwrap();
    s.add_to_pantry(OWNER, LIST, "Coffee".to_string(), None).unwrap();
    s.set_pantry_item(OWNER, LIST, a, Some(3), None).unwrap();
    s.set_pantry_item(OWNER, LIST, b, Some(2), None).unwrap();
    s.refill_pantry(OWNER, LIST).unwrap();
    assert_eq!(amounts(&s, OWNER, LIST), vec![("Apples".to_string(), Some("7".to_string()))]);
    assert_eq!(s.items[0].from_pantry, Some(a));
    let pantry = s.get_pantry(OWNER, LIST).ok().unwrap();
    assert_eq!(pantry[0].amount, 3);
    s.refill_pantry(OWNER, LIST).unwrap();
    assert_eq!(s.items.len(), 2);
    assert_eq!(s.items[1].amount, Some("7".to_string()));
}

#[test]
fn deleting_a_pantry_item_drops_its_list_items() {
    let mut s = store_with_list();
    let a = s.add_to_pantry(OWNER, LIST, "Apples".to_string(), Some(4)).unwrap();
    s.add_item(OWNER, LIST, "Pears".to_string(), None, 1).unwrap();
    s.refill_pantry(OWNER, LIST).unwrap();
    assert_eq!(s.items.len(), 2);
    assert_eq!(s.delete_pantry_item(OWNER, LIST, a), Ok(()));
    assert_eq!(amounts(&s, OWNER, LIST), vec![("Pears".to_string(), None)]);
    assert!(s.get_pantry(OWNER, LIST).ok().unwrap().is_empty());
    assert_eq!(s.delete_pantry_item(OWNER, LIST, a), Err(Error::NotFound));
    assert_eq!(s.set_pantry_item(OWNER, LIST, a, Some(1), None), Err(Error::NotFound));
}

#[test]
fn pantry_edit_leaves_absent_fields() {
    let mut s = store_with_list();
    let a = s.add_to_pantry(OWNER, LIST, "Oil".to_string(), None).unwrap();
    s.set_pantry_item(OWNER, LIST, a, None, Some(2)).unwrap();
    s.set_pantry_item(OWNER, LIST, a, Some(1), None).unwrap();
    let p = &s.get_pantry(OWNER, LIST).ok().unwrap()[0];
    assert_eq!((p.amount, p.target), (1, Some(2)));
}

#[test]
fn item_update_changes_only_given_fields() {
    let mut s = store_with_list();
    let id = s.add_item(OWNER, LIST, "Tea".to_string(), Some("1".to_string()), 1).unwrap();
    s.update_item(OWNER, LIST, id, Some("Green tea".to_string()), None).unwrap();
    assert_eq!(amounts(&s, OWNER, LIST), vec![("Green tea".to_string(), Some("1".to_string()))]);
    assert_eq!(s.update_item(OWNER, LIST, id + 1, None, None), Err(Error::NotFound));
}

#[test]
fn history_folds_case() {
    let mut s = store_with_list();
    s.add_item(OWNER, LIST, "Milk".to_string(), None, 10).unwrap();
    s.add_item(OWNER, LIST, "milk".to_string(), None, 20).unwrap();
    assert_eq!(s.history.len(), 1);
    assert_eq!(s.history[0].name, "milk");
    assert_eq!(s.history[0].last_used, 20);
    s.add_item_folded(GUEST, LIST, "x".to_string(), None, "x".to_string(), 30).unwrap_err();
    s.add_item(OWNER, LIST, "MILK".to_string(), None, 40).unwrap();
    assert_eq!(s.history.len(), 1);
    assert_eq!(s.history[0].last_used, 40);
    s.add_item_folded(OWNER, LIST, "Bread".to_string(), None, "bread".to_string(), 50).unwrap();
    assert_eq!(s.history.len(), 2);
    assert_eq!(s.items.len(), 4);
}

#[test]
fn public_view_only_when_public() {
    let mut s = store_with_list();
    s.add_item(OWNER, LIST, "Milk".to_string(), Some("2".to_string()), 1).unwrap();
    assert!(matches!(s.get_public_list(LIST), Err(Error::NotFound)));
    assert_eq!(s.set_public(GUEST, LIST), Err(Error::NotAuthorized));
    assert_eq!(s.set_public(OWNER, LIST), Ok(()));
    let items = s.get_public_list(LIST).ok().unwrap();
    assert_eq!(items[0].amount, Some("2".to_string()));
    assert!(matches!(s.get_public_list(999), Err(Error::NotFound)));
    assert_eq!(s.remove_public(OWNER, LIST), Ok(()));
    assert!(matches!(s.get_public_list(LIST), Err(Error::NotFound)));
}

#[test]
fn overview_lists_owned_then_shared() {
    let mut s = store_with_list();
    s.create_list_with_id(GUEST, "Mine".to_string(), 5005).unwrap();
    s.create_list_with_id(OTHER, "Theirs".to_string(), 6006).unwrap();
    s.share_list(OWNER, LIST, GUEST, true).unwrap();
    s.share_list(OTHER, 6006, GUEST, false).unwrap();
    s.set_public(OTHER, 6006).unwrap();
    let infos = s.list_lists(GUEST);
    assert_eq!(infos.len(), 3);
    assert_eq!((infos[0].id, infos[0].status), (5005, ListStatus::Owned));
    assert_eq!((infos[1].id, infos[1].status, infos[1].owner), (LIST, ListStatus::SharedRead, OWNER));
    assert_eq!((infos[2].id, infos[2].status, infos[2].public), (6006, ListStatus::SharedWrite, true));
    assert_eq!(infos[1].name, "Groceries");
    assert!(s.list_lists(12345).is_empty());
}

#[test]
fn sharing_with_the_owner_is_invalid() {
    let mut s = store_with_list();
    assert_eq!(s.share_list(OWNER, LIST, OWNER, false), Err(Error::InvalidInput));
    assert_eq!(s.share_list(GUEST, LIST, OTHER, false), Err(Error::NotAuthorized));
    assert!(s.shares.is_empty());
}

#[test]
fn quantities_parse_and_render() {
    assert_eq!(parse_quantity("12"), 12);
    assert_eq!(parse_quantity("007"), 7);
    assert_eq!(parse_quantity(""), 0);
    assert_eq!(parse_quantity("a pinch"), 0);
    assert_eq!(parse_quantity("2 cups"), 0);
    assert_eq!(parse_quantity("-3"), 0);
    assert_eq!(parse_quantity("4294967295"), 4294967295);
    assert_eq!(parse_quantity("4294967296"), 0);
    assert_eq!(render_quantity(0), "0");
    assert_eq!(render_quantity(12), "12");
    assert_eq!(render_quantity(4294967295), "4294967295");
    assert_eq!(parse_quantity(&render_quantity(90210)), 90210);
}

#[test]
fn errors_map_to_codes() {
    let e = Error::AlreadyExists.to_rsp_err();
    assert_eq!(e.code, 3);
    assert!(!e.description.is_empty());
    assert_eq!(Error::NotFound.code(), 1);
    assert_eq!(Error::NotAuthorized.code(), 2);
    assert_eq!(Error::InvalidInput.code(), 4);
    assert_eq!(Error::InternalError.code(), 5);
    let ok: RspData<u32> = RspData::Success(4);
    assert!(matches!(ok.into_result(), Ok(4)));
    let err: RspData<Empty> = RspData::Failure(RspErr { code: 2, description: "no".to_string() });
    assert!(matches!(err.into_result(), Err(RspErr { code: 2, .. })));
}

#[test]
fn create_list_on_empty_store_succeeds() {
    let mut s = Store::new();
    let id = s.create_list(OWNER, "Groceries".to_string()).unwrap();
    assert_eq!(s.lists.len(), 1);
    assert_eq!(s.lists[0].id, id);
    assert_eq!(s.lists[0].owner, OWNER);
    assert_eq!(s.lists[0].name, "Groceries");
    assert!(!s.lists[0].public);
    assert!(s.read_list(OWNER, id).ok().unwrap().0.is_empty());
    assert!(s.get_pantry(OWNER, id).ok().unwrap().is_empty());
}

use colony::food::{Food, FOOD_AMOUNT};
use colony::messenger::{Dispatch, Messenger, Signal};
use colony::object::{Camera, External, GameObject};
use colony::parent::Parent;

fn view() -> External {
    let mut external = External::new((800, 800), 0);
    external.camera = Camera { pos: (0, 0), scale: 1000 };
    external
}

#[test]
fn plus_appends_and_leaves_the_rest() {
    let mut parent = Parent::new();
    assert_eq!(parent.len(), 0);
    assert!(parent.child(0).is_none());
    parent.plus(Food::new((1, 1))).plus(Food::new((2, 2)));
    parent.plus(Food::new((3, 3)));
    assert_eq!(parent.len(), 3);
    assert_eq!(parent.child(0).unwrap().pos, (1, 1));
    assert_eq!(parent.child(1).unwrap().pos, (2, 2));
    assert_eq!(parent.child(2).unwrap().pos, (3, 3));
    assert!(parent.child(3).is_none());
}

#[test]
fn parent_runs_its_children_in_order() {
    let mut bus = Messenger::new(0);
    bus.ingest(vec![Dispatch::new(Some((2, 2)), Signal::ConsumeFood, 5)]);
    let sender = bus.sender();
    let external = view();
    let mut parent = Parent::new();
    parent.plus(Food::new((1, 1))).plus(Food::new((2, 2))).plus(Food::new((5000, 0)));
    let plans = parent.plan(&(), &external, &sender);
    assert_eq!(plans.len(), 3);
    parent.adopt(plans);
    assert_eq!(parent.update(&external, &bus), None);
    assert_eq!(parent.child(0).unwrap().amount, FOOD_AMOUNT);
    assert_eq!(parent.child(1).unwrap().amount, FOOD_AMOUNT - 1);
    assert!(parent.instance(&external).is_none());
    let mut out = Vec::new();
    parent.render(&external, &mut out);
    assert_eq!(out.len(), 2);
    assert_eq!(out[0].position, (1, 1));
    assert_eq!(out[1].position, (2, 2));
    parent.cleanup();
    assert_eq!(parent.len(), 3);
}

#[test]
fn plans_go_to_the_children_at_their_places() {
    let mut parent: Parent<Parent<Food>> = Parent::new();
    let mut first = Parent::new();
    first.plus(Food::new((1, 1)));
    parent.plus(first).plus(Parent::new());
    parent.adopt(vec![vec![()], vec![], vec![]]);
    parent.adopt(vec![]);
    assert_eq!(parent.len(), 2);
    assert_eq!(parent.child(0).unwrap().len(), 1);
}

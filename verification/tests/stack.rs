use lol_html::html::LocalName;
use lol_html::selectors_vm::program::AddressRange;
use lol_html::selectors_vm::stack::{ChildCounter, SelectorState, Stack, StackItem, TypedChildCounterMap};

fn local_name(name: &str) -> LocalName {
    LocalName::from_str_without_replacements(name, "utf-8").unwrap()
}

fn item(name: &str, data: usize) -> StackItem {
    let mut item = StackItem::new(local_name(name));
    item.element_data.matched_payload.push(data);
    item
}

fn names(stack: &Stack) -> Vec<String> {
    stack.items().iter().map(|i| format!("{:?}", i.local_name)).collect()
}

#[test]
fn pop_up_to() {
    let check = |up_to: &str, expected_unmatched: Vec<usize>, expected_items: &[&str]| {
        let mut stack = Stack::new(false);
        stack.push_item(item("html", 0));
        stack.push_item(item("body", 1));
        stack.push_item(item("div", 2));
        stack.push_item(item("div", 3));
        stack.push_item(item("span", 4));

        let unmatched: Vec<usize> = stack
            .pop_up_to(&local_name(up_to))
            .into_iter()
            .map(|d| d.matched_payload[0])
            .collect();

        assert_eq!(unmatched, expected_unmatched);
        assert_eq!(
            names(&stack),
            expected_items.iter().map(|&i| format!("{:?}", local_name(i))).collect::<Vec<_>>()
        );
    };

    check("span", vec![4], &["html", "body", "div", "div"]);
    check("div", vec![3, 4], &["html", "body", "div"]);
    check("body", vec![1, 2, 3, 4], &["html"]);
    check("html", vec![0, 1, 2, 3, 4], &[]);
    check("table", vec![], &["html", "body", "div", "div", "span"]);
}

#[test]
fn pop_up_to_on_empty_stack() {
    let mut stack = Stack::new(false);
    let popped = stack.pop_up_to(&local_name("div"));
    assert!(popped.is_empty());
    assert_eq!(stack.items().len(), 0);
}

#[test]
fn open_name_counts_track_push_and_drain() {
    let mut stack = Stack::new(false);
    stack.push_item(item("a", 0));
    stack.push_item(item("b", 1));
    stack.push_item(item("a", 2));

    assert!(stack.pop_up_to(&local_name("c")).is_empty());
    assert_eq!(stack.items().len(), 3);

    let mut popped: Vec<usize> = Vec::new();
    popped.extend(stack.pop_up_to(&local_name("a")).into_iter().map(|d| d.matched_payload[0]));
    assert_eq!(popped, vec![2]);
    assert_eq!(stack.items().len(), 2);

    popped.extend(stack.pop_up_to(&local_name("a")).into_iter().map(|d| d.matched_payload[0]));
    assert_eq!(popped, vec![2, 0, 1]);
    assert!(stack.items().is_empty());

    assert!(stack.pop_up_to(&local_name("a")).is_empty());
}

#[test]
fn push_item_marks_hereditary_ancestors() {
    let mut stack = Stack::new(false);
    stack.push_item(item("a", 0));
    assert!(!stack.items()[0].has_ancestor_with_hereditary_jumps);
    let mut b = item("b", 1);
    b.hereditary_jumps.push(AddressRange { start: 0, end: 1 });
    stack.push_item(b);
    assert!(!stack.items()[1].has_ancestor_with_hereditary_jumps);
    stack.push_item(item("c", 2));
    assert!(stack.items()[2].has_ancestor_with_hereditary_jumps);
    stack.push_item(item("d", 3));
    assert!(stack.items()[3].has_ancestor_with_hereditary_jumps);
}

#[test]
fn typed_child_counters_count_per_frame() {
    let mut counters = TypedChildCounterMap::new();
    let div = local_name("div");
    let span = local_name("span");
    counters.add_child(&div, 0);
    counters.add_child(&div, 0);
    counters.add_child(&span, 0);
    assert_eq!(counters.get(&div, 0), Some(ChildCounter { cumulative: 2 }));
    assert_eq!(counters.get(&span, 0), Some(ChildCounter { cumulative: 1 }));
    assert_eq!(counters.get(&div, 1), None);

    // A deeper frame starts its own count and hides the outer one until it closes.
    counters.add_child(&div, 1);
    assert_eq!(counters.get(&div, 1), Some(ChildCounter { cumulative: 1 }));
    assert_eq!(counters.get(&div, 0), None);

    counters.pop_to(0);
    assert_eq!(counters.get(&div, 0), Some(ChildCounter { cumulative: 2 }));
    assert_eq!(counters.get(&div, 1), None);

    counters.add_child(&div, 0);
    assert_eq!(counters.get(&div, 0), Some(ChildCounter { cumulative: 3 }));

    // A name seen only in closed frames is forgotten.
    counters.add_child(&local_name("p"), 2);
    counters.pop_to(1);
    assert_eq!(counters.get(&local_name("p"), 2), None);
    counters.add_child(&local_name("p"), 2);
    assert_eq!(counters.get(&local_name("p"), 2), Some(ChildCounter { cumulative: 1 }));
}

#[test]
fn stack_counts_children_of_the_current_element() {
    let mut stack = Stack::new(true);
    let div = local_name("div");
    let p = local_name("p");

    assert_eq!(stack.build_state(&div), SelectorState { cumulative: ChildCounter { cumulative: 0 }, typed: None });
    stack.add_child(&div);
    assert_eq!(
        stack.build_state(&div),
        SelectorState { cumulative: ChildCounter { cumulative: 1 }, typed: Some(ChildCounter { cumulative: 1 }) }
    );
    stack.push_item(item("div", 0));

    stack.add_child(&p);
    stack.push_item(item("p", 1));
    stack.pop_up_to(&p);
    stack.add_child(&p);
    assert_eq!(
        stack.build_state(&p),
        SelectorState { cumulative: ChildCounter { cumulative: 2 }, typed: Some(ChildCounter { cumulative: 2 }) }
    );
    assert_eq!(stack.build_state(&div).typed, None);

    stack.pop_up_to(&div);
    stack.add_child(&div);
    assert_eq!(
        stack.build_state(&div),
        SelectorState { cumulative: ChildCounter { cumulative: 2 }, typed: Some(ChildCounter { cumulative: 2 }) }
    );
}

#[test]
fn stack_without_typed_counters() {
    let mut stack = Stack::new(false);
    stack.add_child(&local_name("div"));
    stack.add_child(&local_name("div"));
    assert_eq!(stack.build_state(&local_name("div")), SelectorState { cumulative: ChildCounter { cumulative: 2 }, typed: None });
}

fn active_hj(stack: &Stack) -> Vec<AddressRange> {
    stack.active_hereditary_jumps.iter().map(|(r, _)| *r).collect()
}

#[test]
fn active_hereditary_jumps_dedup_and_prune() {
    let mut stack = Stack::new(false);

    stack.push_item(item("a", 0));

    let mut b = item("b", 1);
    b.hereditary_jumps.push(AddressRange { start: 0, end: 1 });
    stack.push_item(b);
    assert_eq!(active_hj(&stack), vec![AddressRange { start: 0, end: 1 }]);

    let mut c = item("c", 2);
    c.hereditary_jumps.push(AddressRange { start: 0, end: 1 });
    c.hereditary_jumps.push(AddressRange { start: 2, end: 4 });
    stack.push_item(c);
    assert_eq!(active_hj(&stack), vec![AddressRange { start: 0, end: 1 }, AddressRange { start: 2, end: 4 }]);

    stack.push_item(item("d", 3));
    assert_eq!(active_hj(&stack), vec![AddressRange { start: 0, end: 1 }, AddressRange { start: 2, end: 4 }]);

    stack.pop_up_to(&local_name("c"));
    assert_eq!(active_hj(&stack), vec![AddressRange { start: 0, end: 1 }]);

    stack.pop_up_to(&local_name("a"));
    assert!(active_hj(&stack).is_empty());
}

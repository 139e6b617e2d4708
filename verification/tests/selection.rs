use logic_canvas::element::{Direction1, Direction2, Element};
use logic_canvas::selection::{total_elements, Input, Selection};
use logic_canvas::store::Elements;
use logic_canvas::vec_2::{Axis, Vec2};

fn wire(length: u16) -> Element {
    Element::Wire { length, axis: Axis::X }
}

fn floating_len(sel: &Selection) -> usize {
    match sel {
        Selection::Selecting => 0,
        Selection::Selected { elements, .. } => elements.len(),
    }
}

fn current_offset(sel: &Selection) -> Vec2<i16> {
    match sel {
        Selection::Selecting => Vec2(0, 0),
        Selection::Selected { offset, .. } => *offset,
    }
}

#[test]
fn press_on_element_picks_it_up() {
    let mut store = Elements::new();
    let mut sel = Selection::new();
    store.insert(Vec2(0, 0), wire(3));
    // Press mid-wire: the element leaves the store and floats, keyed at its
    // original anchor.
    sel.update(&mut store, Input::Press, Vec2(2, 0));
    assert_eq!(store.len(), 0);
    match &sel {
        Selection::Selected { elements, offset, previous_cursor } => {
            assert_eq!(elements.len(), 1);
            assert_eq!(elements.entry_at(0), (Vec2(0, 0), wire(3)));
            assert_eq!(*offset, Vec2(0, 0));
            assert_eq!(*previous_cursor, Some(Vec2(2, 0)));
        },
        Selection::Selecting => panic!("expected a committed selection"),
    }
}

#[test]
fn press_on_empty_cell_starts_marquee() {
    let mut store = Elements::new();
    let mut sel = Selection::new();
    sel.update(&mut store, Input::Press, Vec2(7, 7));
    assert!(matches!(sel, Selection::Selecting));
}

#[test]
fn marquee_release_commits_the_rectangle() {
    let mut store = Elements::new();
    let mut sel = Selection::new();
    store.insert(Vec2(1, 1), wire(1));
    store.insert(Vec2(2, 2), wire(1));
    store.insert(Vec2(4, 4), wire(1));
    sel.update(&mut store, Input::Press, Vec2(9, 9));
    assert!(matches!(sel, Selection::Selecting));
    sel.update(
        &mut store,
        Input::Release { rect_min: Vec2(1, 1), rect_max: Vec2(3, 3) },
        Vec2(9, 9),
    );
    assert_eq!(store.len(), 1);
    match &sel {
        Selection::Selected { elements, offset, previous_cursor } => {
            assert_eq!(elements.len(), 2);
            assert_eq!(elements.entry_at(0).0, Vec2(1, 1));
            assert_eq!(elements.entry_at(1).0, Vec2(2, 2));
            assert_eq!(*offset, Vec2(0, 0));
            assert_eq!(*previous_cursor, None);
        },
        Selection::Selecting => panic!("expected a committed selection"),
    }
}

#[test]
fn dragged_selection_lands_at_accumulated_offset() {
    // Commit a rectangle over two elements, drag by (5, -1) across three
    // frames, then press elsewhere: the elements land shifted by (5, -1).
    let mut store = Elements::new();
    let mut sel = Selection::new();
    store.insert(Vec2(1, 1), wire(1));
    store.insert(Vec2(2, 2), wire(1));
    sel.update(&mut store, Input::Press, Vec2(9, 9));
    sel.update(
        &mut store,
        Input::Release { rect_min: Vec2(1, 1), rect_max: Vec2(3, 3) },
        Vec2(9, 9),
    );
    // Grab the selected group at (1, 1) to start dragging it.
    sel.update(&mut store, Input::Press, Vec2(1, 1));
    // Three frames of pointer motion, accumulating (2,0), (1,-1), (2,0).
    sel.update(&mut store, Input::Idle, Vec2(3, 1));
    assert_eq!(current_offset(&sel), Vec2(2, 0));
    sel.update(&mut store, Input::Idle, Vec2(4, 0));
    assert_eq!(current_offset(&sel), Vec2(3, -1));
    sel.update(&mut store, Input::Idle, Vec2(6, 0));
    assert_eq!(current_offset(&sel), Vec2(5, -1));
    // Stop dragging, then press an empty cell far away: the floating pair
    // reattaches at its accumulated offset.
    sel.update(&mut store, Input::Release { rect_min: Vec2(0, 0), rect_max: Vec2(0, 0) }, Vec2(6, 0));
    sel.update(&mut store, Input::Press, Vec2(20, 20));
    assert!(matches!(sel, Selection::Selecting));
    assert_eq!(store.len(), 2);
    assert_eq!(store.find_occupant(Vec2(6, 0)), Some((Vec2(6, 0), wire(1))));
    assert_eq!(store.find_occupant(Vec2(7, 1)), Some((Vec2(7, 1), wire(1))));
    assert_eq!(store.find_occupant(Vec2(1, 1)), None);
    assert_eq!(store.find_occupant(Vec2(2, 2)), None);
}

#[test]
fn duplicate_copies_without_touching_the_selection() {
    // Duplicate a one-element floating selection held at offset (3, 0): the
    // main store gains a copy at the shifted cell while the selection keeps
    // its size and stays draggable.
    let mut store = Elements::new();
    let mut sel = Selection::new();
    store.insert(Vec2(0, 0), wire(1));
    sel.update(&mut store, Input::Press, Vec2(0, 0));
    sel.update(&mut store, Input::Idle, Vec2(3, 0));
    assert_eq!(current_offset(&sel), Vec2(3, 0));
    sel.update(&mut store, Input::Duplicate, Vec2(3, 0));
    assert_eq!(store.len(), 1);
    assert_eq!(store.entry_at(0), (Vec2(3, 0), wire(1)));
    assert_eq!(floating_len(&sel), 1);
    // The selection still drags: two more cells of motion move the floating
    // element, not the fresh copy.
    sel.update(&mut store, Input::Idle, Vec2(5, 0));
    assert_eq!(current_offset(&sel), Vec2(5, 0));
    assert_eq!(store.entry_at(0), (Vec2(3, 0), wire(1)));
}

#[test]
fn duplicate_starts_a_drag_when_none_is_active() {
    let mut store = Elements::new();
    let mut sel = Selection::new();
    store.insert(Vec2(0, 0), wire(1));
    sel.update(&mut store, Input::Press, Vec2(0, 0));
    sel.update(&mut store, Input::Release { rect_min: Vec2(0, 0), rect_max: Vec2(0, 0) }, Vec2(0, 0));
    match &sel {
        Selection::Selected { previous_cursor, .. } => assert_eq!(*previous_cursor, None),
        Selection::Selecting => panic!("expected a committed selection"),
    }
    sel.update(&mut store, Input::Duplicate, Vec2(1, 1));
    match &sel {
        Selection::Selected { previous_cursor, .. } => {
            assert_eq!(*previous_cursor, Some(Vec2(1, 1)))
        },
        Selection::Selecting => panic!("expected a committed selection"),
    }
}

#[test]
fn arrow_places_a_fresh_gate_under_the_cursor() {
    let mut store = Elements::new();
    let mut sel = Selection::new();
    let rotation = Direction2 { axis: Axis::Y, direction_1: Direction1::Start };
    sel.update(&mut store, Input::Arrow { rotation }, Vec2(4, 5));
    assert_eq!(store.len(), 0);
    match &sel {
        Selection::Selected { elements, offset, previous_cursor } => {
            assert_eq!(elements.len(), 1);
            assert_eq!(elements.entry_at(0), (Vec2(4, 5), Element::Gate { calc: 0, rotation }));
            assert_eq!(*offset, Vec2(0, 0));
            assert_eq!(*previous_cursor, Some(Vec2(4, 5)));
        },
        Selection::Selecting => panic!("expected a committed selection"),
    }
}

#[test]
fn arrow_reattaches_the_previous_selection_first() {
    let mut store = Elements::new();
    let mut sel = Selection::new();
    store.insert(Vec2(0, 0), wire(1));
    sel.update(&mut store, Input::Press, Vec2(0, 0));
    sel.update(&mut store, Input::Idle, Vec2(2, 0));
    let rotation = Direction2 { axis: Axis::X, direction_1: Direction1::End };
    sel.update(&mut store, Input::Arrow { rotation }, Vec2(8, 8));
    // The dragged wire went back to the store at its offset; a fresh gate
    // floats at the cursor.
    assert_eq!(store.len(), 1);
    assert_eq!(store.entry_at(0), (Vec2(2, 0), wire(1)));
    assert_eq!(floating_len(&sel), 1);
}

#[test]
fn delete_discards_the_floating_selection() {
    let mut store = Elements::new();
    let mut sel = Selection::new();
    store.insert(Vec2(0, 0), wire(1));
    store.insert(Vec2(5, 5), wire(2));
    sel.update(&mut store, Input::Press, Vec2(0, 0));
    assert_eq!(store.len(), 1);
    assert_eq!(floating_len(&sel), 1);
    sel.update(&mut store, Input::Delete, Vec2(0, 0));
    // Destructive: the picked-up wire is gone, the rest of the store stays.
    assert_eq!(store.len(), 1);
    assert_eq!(store.entry_at(0), (Vec2(5, 5), wire(2)));
    assert_eq!(floating_len(&sel), 0);
}

#[test]
fn conservation_across_pick_up_drag_and_drop() {
    // Pick-up, drag and reattach frames move elements between the two stores
    // but never change how many exist in total.
    let mut store = Elements::new();
    let mut sel = Selection::new();
    store.insert(Vec2(0, 0), wire(1));
    store.insert(Vec2(10, 10), wire(2));
    assert_eq!(total_elements(&store, &sel), 2);
    sel.update(&mut store, Input::Press, Vec2(0, 0));
    assert_eq!(total_elements(&store, &sel), 2);
    sel.update(&mut store, Input::Idle, Vec2(4, 4));
    assert_eq!(total_elements(&store, &sel), 2);
    sel.update(&mut store, Input::Release { rect_min: Vec2(0, 0), rect_max: Vec2(0, 0) }, Vec2(4, 4));
    assert_eq!(total_elements(&store, &sel), 2);
    sel.update(&mut store, Input::Press, Vec2(20, 20));
    assert_eq!(total_elements(&store, &sel), 2);
}

#[test]
fn press_on_selected_group_resumes_the_drag() {
    let mut store = Elements::new();
    let mut sel = Selection::new();
    store.insert(Vec2(0, 0), wire(3));
    sel.update(&mut store, Input::Press, Vec2(0, 0));
    sel.update(&mut store, Input::Idle, Vec2(2, 2));
    sel.update(&mut store, Input::Release { rect_min: Vec2(0, 0), rect_max: Vec2(0, 0) }, Vec2(2, 2));
    // The wire floats at offset (2, 2): its footprint now covers (2,2)..(4,2).
    // Pressing inside it resumes dragging instead of reattaching.
    sel.update(&mut store, Input::Press, Vec2(4, 2));
    assert_eq!(store.len(), 0);
    assert_eq!(floating_len(&sel), 1);
    sel.update(&mut store, Input::Idle, Vec2(5, 2));
    assert_eq!(current_offset(&sel), Vec2(3, 2));
}

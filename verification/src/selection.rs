use vstd::prelude::*;

use crate::element::{Direction2, Element};
use crate::store::{
    cell_occupied, is_occupant, lemma_occupant_unique, merged, rect_part, rect_rest, shift_disjoint,
    shift_fits, Elements,
};
use crate::vec_2::{cell_fits, Vec2};

verus! {

broadcast use vstd::set::group_set_axioms, vstd::map::group_map_axioms;

/// One frame's worth of input, already reduced to plain values by the
/// windowing layer. At most one variant other than `Idle` fires per frame;
/// when several inputs arrive at once the caller keeps the priority order
/// press, release, arrow, delete, duplicate.
pub enum Input {
    /// No recognised input this frame.
    Idle,
    /// The primary pointer button went down this frame.
    Press,
    /// The primary pointer button went up this frame. While a marquee drag is
    /// in progress the two cells give the dragged rectangle rounded to grid
    /// cells, minimum corner inclusive and maximum corner exclusive per axis;
    /// outside a marquee drag they are ignored.
    Release { rect_min: Vec2<i16>, rect_max: Vec2<i16> },
    /// An arrow key went down: place a fresh gate with this rotation.
    Arrow { rotation: Direction2 },
    /// The delete key went down: discard the floating selection.
    Delete,
    /// The duplicate chord went down: copy the floating selection into the
    /// main store at its current offset.
    Duplicate,
}

/// The selection's mathematical state: either a marquee rectangle drag is in
/// progress, or a committed floating selection is held at an accumulated
/// offset, with the drag anchor of an active pointer drag.
#[verifier::ext_equal]
pub enum SelectionState {
    Selecting,
    Selected {
        floating: Map<(int, int), Element>,
        offset: (int, int),
        previous_cursor: Option<(int, int)>,
    },
}

/// What one frame of input does to the main store and the selection, before
/// drag accumulation. `c` is the grid cell under the pointer.
pub open spec fn apply_input(
    store: Map<(int, int), Element>,
    sel: SelectionState,
    input: Input,
    c: (int, int),
) -> (Map<(int, int), Element>, SelectionState) {
    match input {
        Input::Idle => (store, sel),
        Input::Press => match sel {
            SelectionState::Selecting => (store, sel),
            SelectionState::Selected { floating, offset, previous_cursor } => {
                if cell_occupied(floating, (c.0 - offset.0, c.1 - offset.1))
                    && previous_cursor is None {
                    // The pointer grabbed the already-selected group: start a
                    // drag and keep everything floating.
                    (
                        store,
                        SelectionState::Selected { floating, offset, previous_cursor: Some(c) },
                    )
                } else {
                    // Reattach the floating selection at its offset, then
                    // either pick up the one element under the pointer or
                    // begin a marquee on an empty cell.
                    let m = merged(store, floating, offset);
                    if cell_occupied(m, c) {
                        let a = choose|a: (int, int)| is_occupant(m, c, a);
                        (
                            m.remove(a),
                            SelectionState::Selected {
                                floating: Map::empty().insert(a, m[a]),
                                offset: (0, 0),
                                previous_cursor: Some(c),
                            },
                        )
                    } else {
                        (m, SelectionState::Selecting)
                    }
                }
            },
        },
        Input::Release { rect_min, rect_max } => match sel {
            SelectionState::Selecting => (
                rect_rest(store, rect_min@, rect_max@),
                SelectionState::Selected {
                    floating: rect_part(store, rect_min@, rect_max@),
                    offset: (0, 0),
                    previous_cursor: None,
                },
            ),
            SelectionState::Selected { floating, offset, .. } => (
                store,
                SelectionState::Selected { floating, offset, previous_cursor: None },
            ),
        },
        Input::Arrow { rotation } => (
            match sel {
                SelectionState::Selected { floating, offset, .. } => merged(
                    store,
                    floating,
                    offset,
                ),
                SelectionState::Selecting => store,
            },
            SelectionState::Selected {
                floating: Map::empty().insert(c, Element::Gate { calc: 0, rotation }),
                offset: (0, 0),
                previous_cursor: Some(c),
            },
        ),
        Input::Delete => (
            store,
            SelectionState::Selected {
                floating: Map::empty(),
                offset: (0, 0),
                previous_cursor: None,
            },
        ),
        Input::Duplicate => match sel {
            SelectionState::Selecting => (store, sel),
            SelectionState::Selected { floating, offset, previous_cursor } => (
                merged(store, floating, offset),
                SelectionState::Selected {
                    floating,
                    offset,
                    previous_cursor: if previous_cursor is None {
                        Some(c)
                    } else {
                        previous_cursor
                    },
                },
            ),
        },
    }
}

/// Drag accumulation at the end of every frame: while a drag anchor is held,
/// the offset grows by the pointer's motion and the anchor moves to the
/// pointer's cell. The floating elements' stored cells never change; only the
/// offset does.
pub open spec fn drag(sel: SelectionState, c: (int, int)) -> SelectionState {
    match sel {
        SelectionState::Selected {
            floating,
            offset,
            previous_cursor: Some(p),
        } => SelectionState::Selected {
            floating,
            offset: (offset.0 + c.0 - p.0, offset.1 + c.1 - p.1),
            previous_cursor: Some(c),
        },
        _ => sel,
    }
}

/// One whole interaction frame: the input's transition followed by drag
/// accumulation.
pub open spec fn step(
    store: Map<(int, int), Element>,
    sel: SelectionState,
    input: Input,
    c: (int, int),
) -> (Map<(int, int), Element>, SelectionState) {
    let r = apply_input(store, sel, input, c);
    (r.0, drag(r.1, c))
}

/// The machine limits a frame must respect: every cell the frame's arithmetic
/// produces fits an `i16` grid component.
pub open spec fn update_ok(sel: SelectionState, input: Input, c: (int, int)) -> bool {
    match sel {
        SelectionState::Selecting => true,
        SelectionState::Selected { floating, offset, previous_cursor } => {
            let drag_ok = match previous_cursor {
                Some(p) => cell_fits((c.0 - p.0, c.1 - p.1)) && cell_fits(
                    (offset.0 + c.0 - p.0, offset.1 + c.1 - p.1),
                ),
                None => true,
            };
            match input {
                Input::Idle => drag_ok,
                Input::Press => cell_fits((c.0 - offset.0, c.1 - offset.1)) && (cell_occupied(
                    floating,
                    (c.0 - offset.0, c.1 - offset.1),
                ) && previous_cursor is None || shift_fits(floating, offset)),
                Input::Release { .. } => true,
                Input::Arrow { .. } => shift_fits(floating, offset),
                Input::Delete => true,
                Input::Duplicate => shift_fits(floating, offset) && drag_ok,
            }
        },
    }
}

/// The number of elements a selection holds.
pub open spec fn selection_count(sel: SelectionState) -> nat {
    match sel {
        SelectionState::Selecting => 0,
        SelectionState::Selected { floating, .. } => floating.len(),
    }
}

/// The number of elements in existence: main store plus floating selection.
pub open spec fn total_count(store: Map<(int, int), Element>, sel: SelectionState) -> nat {
    store.len() + selection_count(sel)
}

/// Whether reattaching the selection's floating store at its offset collides
/// with a cell of `store`.
pub open spec fn reattach_disjoint(store: Map<(int, int), Element>, sel: SelectionState) -> bool {
    match sel {
        SelectionState::Selecting => true,
        SelectionState::Selected { floating, offset, .. } => shift_disjoint(
            store,
            floating,
            offset,
        ),
    }
}

/// The selection's interaction state. A `Selecting` value marks a marquee
/// rectangle drag in progress; the world-space anchor of the marquee lives
/// with the pointer-handling caller, which reports the finished rectangle in
/// grid cells on release. A `Selected` value owns the floating sub-store of
/// picked-up elements, keyed by their original cells, together with the
/// offset accumulated since pick-up and the cell the pointer last occupied
/// while actively dragging (`None` when not dragging).
pub enum Selection {
    Selecting,
    Selected { elements: Elements, offset: Vec2<i16>, previous_cursor: Option<Vec2<i16>> },
}

impl View for Selection {
    type V = SelectionState;

    open spec fn view(&self) -> SelectionState {
        match self {
            Selection::Selecting => SelectionState::Selecting,
            Selection::Selected { elements, offset, previous_cursor } => SelectionState::Selected {
                floating: elements@,
                offset: offset@,
                previous_cursor: match previous_cursor {
                    Some(p) => Some(p@),
                    None => None,
                },
            },
        }
    }
}

impl Selection {
    /// The selection's invariant: a floating store is well-formed.
    pub open spec fn wf(&self) -> bool {
        match self {
            Selection::Selecting => true,
            Selection::Selected { elements, .. } => elements.wf(),
        }
    }

    /// The initial state: an empty committed selection with no drag.
    pub fn new() -> (r: Selection)
        ensures
            r.wf(),
            r@ == (SelectionState::Selected {
                floating: Map::<(int, int), Element>::empty(),
                offset: (0int, 0int),
                previous_cursor: None::<(int, int)>,
            }),
    {
        Selection::Selected {
            elements: Elements::new(),
            offset: Vec2(0, 0),
            previous_cursor: None,
        }
    }

    /// Runs one interaction frame: applies this frame's input to the main
    /// store and the selection, then accumulates any active drag. The whole
    /// transition table is `step`. The trailing clauses state conservation:
    /// frames that only pick up, drop, or reattach without collision neither
    /// create nor destroy an element; an arrow frame creates exactly one; a
    /// duplicate frame creates one copy per floating element; a delete frame
    /// discards the floating selection and nothing else.
    pub fn update(&mut self, elements: &mut Elements, input: Input, grid_cursor: Vec2<i16>)
        requires
            old(self).wf(),
            old(elements).wf(),
            update_ok(old(self)@, input, grid_cursor@),
        ensures
            final(self).wf(),
            final(elements).wf(),
            final(elements)@ == step(old(elements)@, old(self)@, input, grid_cursor@).0,
            final(self)@ == step(old(elements)@, old(self)@, input, grid_cursor@).1,
            (match input {
                Input::Idle | Input::Release { .. } => true,
                Input::Press => reattach_disjoint(old(elements)@, old(self)@),
                _ => false,
            }) ==> total_count(final(elements)@, final(self)@) == total_count(
                old(elements)@,
                old(self)@,
            ),
            (input is Arrow && reattach_disjoint(old(elements)@, old(self)@)) ==> total_count(
                final(elements)@,
                final(self)@,
            ) == total_count(old(elements)@, old(self)@) + 1,
            (input is Duplicate && reattach_disjoint(old(elements)@, old(self)@)) ==> total_count(
                final(elements)@,
                final(self)@,
            ) == total_count(old(elements)@, old(self)@) + selection_count(old(self)@),
            input is Delete ==> total_count(final(elements)@, final(self)@) == old(
                elements,
            )@.len(),
    {
        let ghost m0 = old(elements)@;
        let ghost s0 = old(self)@;
        let ghost c = grid_cursor@;
        let mut current = Selection::Selecting;
        core::mem::swap(self, &mut current);
        let stepped: Selection = match input {
            Input::Idle => current,
            Input::Press => match current {
                Selection::Selecting => Selection::Selecting,
                Selection::Selected { elements: mut floating, offset, previous_cursor } => {
                    let query = Vec2(grid_cursor.0 - offset.0, grid_cursor.1 - offset.1);
                    if floating.occupied(query) && previous_cursor.is_none() {
                        Selection::Selected {
                            elements: floating,
                            offset,
                            previous_cursor: Some(grid_cursor),
                        }
                    } else {
                        elements.merge_back(&mut floating, offset);
                        let ghost m = merged(m0, s0->Selected_floating, s0->Selected_offset);
                        match elements.find_occupant(grid_cursor) {
                            Some(hit) => {
                                elements.remove(hit.0);
                                let mut fresh = Elements::new();
                                fresh.insert(hit.0, hit.1);
                                proof {
                                    let a = choose|a: (int, int)| is_occupant(m, c, a);
                                    assert(is_occupant(m, c, hit.0@));
                                    lemma_occupant_unique(m, c, hit.0@, a);
                                }
                                Selection::Selected {
                                    elements: fresh,
                                    offset: Vec2(0, 0),
                                    previous_cursor: Some(grid_cursor),
                                }
                            },
                            None => Selection::Selecting,
                        }
                    }
                },
            },
            Input::Release { rect_min, rect_max } => match current {
                Selection::Selecting => {
                    let extracted = elements.extract_rectangle(rect_min, rect_max);
                    Selection::Selected {
                        elements: extracted,
                        offset: Vec2(0, 0),
                        previous_cursor: None,
                    }
                },
                Selection::Selected { elements: floating, offset, .. } => Selection::Selected {
                    elements: floating,
                    offset,
                    previous_cursor: None,
                },
            },
            Input::Arrow { rotation } => {
                match current {
                    Selection::Selected { elements: mut floating, offset, .. } => {
                        elements.merge_back(&mut floating, offset);
                    },
                    Selection::Selecting => {},
                }
                let mut fresh = Elements::new();
                fresh.insert(grid_cursor, Element::Gate { calc: 0, rotation });
                Selection::Selected {
                    elements: fresh,
                    offset: Vec2(0, 0),
                    previous_cursor: Some(grid_cursor),
                }
            },
            Input::Delete => Selection::Selected {
                elements: Elements::new(),
                offset: Vec2(0, 0),
                previous_cursor: None,
            },
            Input::Duplicate => match current {
                Selection::Selecting => Selection::Selecting,
                Selection::Selected { elements: floating, offset, previous_cursor } => {
                    elements.merge_copies(&floating, offset);
                    let anchor = if previous_cursor.is_none() {
                        Some(grid_cursor)
                    } else {
                        previous_cursor
                    };
                    Selection::Selected { elements: floating, offset, previous_cursor: anchor }
                },
            },
        };
        proof {
            assert(elements@ == apply_input(m0, s0, input, c).0);
            assert(stepped@ =~~= apply_input(m0, s0, input, c).1);
        }
        let ghost stepped_view = stepped@;
        let dragged: Selection = match stepped {
            Selection::Selected { elements: floating, offset, previous_cursor: Some(p) } => {
                let moved = Vec2(grid_cursor.0 - p.0, grid_cursor.1 - p.1);
                Selection::Selected {
                    elements: floating,
                    offset: Vec2(offset.0 + moved.0, offset.1 + moved.1),
                    previous_cursor: Some(grid_cursor),
                }
            },
            other => other,
        };
        proof {
            assert(dragged@ =~~= drag(stepped_view, c));
        }
        *self = dragged;
    }
}

/// The number of elements in existence, for status display: the main store's
/// size plus the floating selection's size.
pub fn total_elements(elements: &Elements, selection: &Selection) -> (n: usize)
    requires
        elements.wf(),
        selection.wf(),
        total_count(elements@, selection@) <= usize::MAX,
    ensures
        n == total_count(elements@, selection@),
{
    elements.len() + (match selection {
        Selection::Selecting => 0,
        Selection::Selected { elements: floating, .. } => floating.len(),
    })
}

} // verus!

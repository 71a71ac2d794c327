use vstd::prelude::*;

use crate::geometry::Direction;
use crate::level::ParseLevelError;
use crate::object::{Color, Kind, Object};
use crate::protocol::StateControlPayload;

verus! {

/// One committed move: the undo/redo unit.  `objects` is the full collection
/// as it stood before the move that carries number `turn`.
pub struct Turn {
    pub turn: i32,
    pub objects: Vec<Object>,
}

/// A history stack as the model sees it: turn numbers paired with
/// snapshot views.
pub open spec fn turns_view(v: Seq<Turn>) -> Seq<(i32, Seq<Object>)> {
    v.map_values(|t: Turn| (t.turn, t.objects@))
}

/// The mathematical value of the whole engine: every contract speaks of
/// this.  History entries pair a turn number with the collection snapshot
/// it tags.
#[verifier::ext_equal]
pub struct StateModel {
    pub objects: Seq<Object>,
    pub board: (u16, u16),
    pub cursor: (u16, u16),
    pub selected: Option<i32>,
    pub level_path: Option<Seq<char>>,
    pub undo: Seq<(i32, Seq<Object>)>,
    pub redo: Seq<(i32, Seq<Object>)>,
    pub undo_cap: int,
    pub next_object_id: int,
    pub next_shape_id: int,
}

/// A well-formed collection: every segment well formed and uncolored, ids
/// strictly increasing along the sequence (so queries ordered by id are the
/// sequence itself), and no two segments on one cell.
pub open spec fn objs_wf(s: Seq<Object>) -> bool {
    &&& forall|i: int| 0 <= i < s.len() ==> (#[trigger] s[i]).wf()
    &&& forall|i: int| 0 <= i < s.len() ==> (#[trigger] s[i]).color is None
    &&& forall|i: int, j: int| 0 <= i < j < s.len() ==> s[i].id < s[j].id
    &&& forall|i: int, j: int| 0 <= i < j < s.len() ==> s[i].pos != s[j].pos
}

/// Ids and group ids of a collection stay below the two allocation counters.
pub open spec fn objs_bounded(s: Seq<Object>, next_object_id: int, next_shape_id: int) -> bool {
    forall|i: int|
        0 <= i < s.len() ==> (#[trigger] s[i]).id < next_object_id && s[i].shape < next_shape_id
}

/// The engine's invariant.
///
/// Undo turn numbers rise strictly along the stack and stay in
/// `[0, i32::MAX)`; redo turn numbers fall strictly (their top is the
/// smallest) and stay in `[1, i32::MAX]`; when both stacks are occupied the
/// undo top leaves room for the turn between them.  Every snapshot is itself
/// a well-formed collection within the allocation counters.
pub open spec fn wf_model(m: StateModel) -> bool {
    &&& objs_wf(m.objects)
    &&& objs_bounded(m.objects, m.next_object_id, m.next_shape_id)
    &&& m.next_object_id >= 1
    &&& m.next_shape_id >= 1
    &&& m.undo_cap >= 1
    &&& forall|k: int| 0 <= k < m.undo.len() ==> objs_wf((#[trigger] m.undo[k]).1)
    &&& forall|k: int|
        0 <= k < m.undo.len() ==> objs_bounded(
            (#[trigger] m.undo[k]).1,
            m.next_object_id,
            m.next_shape_id,
        )
    &&& forall|k: int| 0 <= k < m.undo.len() ==> 0 <= (#[trigger] m.undo[k]).0 < i32::MAX
    &&& forall|k1: int, k2: int| 0 <= k1 < k2 < m.undo.len() ==> m.undo[k1].0 < m.undo[k2].0
    &&& forall|k: int| 0 <= k < m.redo.len() ==> objs_wf((#[trigger] m.redo[k]).1)
    &&& forall|k: int|
        0 <= k < m.redo.len() ==> objs_bounded(
            (#[trigger] m.redo[k]).1,
            m.next_object_id,
            m.next_shape_id,
        )
    &&& forall|k: int| 0 <= k < m.redo.len() ==> 1 <= (#[trigger] m.redo[k]).0 <= i32::MAX
    &&& forall|k1: int, k2: int| 0 <= k1 < k2 < m.redo.len() ==> m.redo[k1].0 > m.redo[k2].0
    &&& (m.undo.len() > 0 && m.redo.len() > 0 ==> m.undo.last().0 + 2 <= m.redo.last().0)
}

/// The number the next committed move would carry: one past the newest undo
/// entry, else one before the oldest redo entry, else zero.
pub open spec fn spec_current_turn(m: StateModel) -> int {
    if m.undo.len() > 0 {
        m.undo.last().0 + 1
    } else if m.redo.len() > 0 {
        m.redo.last().0 - 1
    } else {
        0
    }
}

/// `o` repainted.
pub open spec fn spec_with_color(o: Object, c: Option<Color>) -> Object {
    Object { color: c, ..o }
}

/// The members of group `shape`, in id order, repainted in `c`.
pub open spec fn spec_shape_colored(s: Seq<Object>, shape: i32, c: Option<Color>) -> Seq<Object> {
    s.filter(|o: Object| o.shape == shape).map_values(|o: Object| spec_with_color(o, c))
}

/// The whole collection painted for a redraw: the selected group white,
/// everything else dark grey.
pub open spec fn spec_all_colored(s: Seq<Object>, selected: Option<i32>) -> Seq<Object> {
    s.map_values(
        |o: Object|
            spec_with_color(
                o,
                Some(
                    if selected == Some(o.shape) {
                        Color::White
                    } else {
                        Color::DarkGrey
                    },
                ),
            ),
    )
}

/// The largest row coordinate in the collection, `-1` when it is empty.
pub open spec fn spec_max_y(s: Seq<Object>) -> int
    decreases s.len(),
{
    if s.len() == 0 {
        -1
    } else if spec_max_y(s.drop_last()) >= s.last().pos.1 as int {
        spec_max_y(s.drop_last())
    } else {
        s.last().pos.1 as int
    }
}

/// The largest column coordinate in the collection, `-1` when it is empty.
pub open spec fn spec_max_x(s: Seq<Object>) -> int
    decreases s.len(),
{
    if s.len() == 0 {
        -1
    } else if spec_max_x(s.drop_last()) >= s.last().pos.0 as int {
        spec_max_x(s.drop_last())
    } else {
        s.last().pos.0 as int
    }
}

pub proof fn lemma_max_coords_bounded(s: Seq<Object>)
    requires
        objs_wf(s),
    ensures
        spec_max_x(s) <= crate::object::MAX_COORD as int,
        spec_max_y(s) <= crate::object::MAX_COORD as int,
        s.len() > 0 ==> spec_max_x(s) >= 0 && spec_max_y(s) >= 0,
    decreases s.len(),
{
    if s.len() > 0 {
        assert(objs_wf(s.drop_last())) by {
            assert(forall|i: int|
                0 <= i < s.len() - 1 ==> s.drop_last()[i] == (#[trigger] s[i]));
        }
        lemma_max_coords_bounded(s.drop_last());
        assert(s.last().wf());
    }
}

/// The cursor's destination for one step, before the engine commits it:
/// `None` when the step is refused (a diagonal while a shape is selected,
/// or a step off the board).  The board does not wrap; x grows rightward
/// and y grows downward.
pub open spec fn spec_move_cursor_to(
    pos: (u16, u16),
    d: Direction,
    bounds: (u16, u16),
    shape_selected: bool,
) -> Option<(u16, u16)> {
    let dx = d.spec_delta().0;
    let dy = d.spec_delta().1;
    let nx = pos.0 as int + dx;
    let ny = pos.1 as int + dy;
    if shape_selected && !d.spec_is_orthogonal() {
        Option::None
    } else if nx < 0 || ny < 0 || (dx > 0 && nx >= bounds.0 as int) || (dy > 0 && ny
        >= bounds.1 as int) {
        Option::None
    } else {
        Some((nx as u16, ny as u16))
    }
}

/// An in-bounds cursor with no shape selected either keeps its place (the
/// step would leave the board) or lands on the arithmetically correct
/// neighbor in its direction.
pub proof fn lemma_cursor_step_exact(pos: (u16, u16), d: Direction, bounds: (u16, u16))
    requires
        pos.0 < bounds.0,
        pos.1 < bounds.1,
    ensures
        match spec_move_cursor_to(pos, d, bounds, false) {
            Some(q) => q.0 as int == pos.0 as int + d.spec_delta().0 && q.1 as int == pos.1 as int
                + d.spec_delta().1,
            Option::None => {
                let nx = pos.0 as int + d.spec_delta().0;
                let ny = pos.1 as int + d.spec_delta().1;
                nx < 0 || ny < 0 || nx >= bounds.0 as int || ny >= bounds.1 as int
            },
        },
{
}

/// With a shape selected every diagonal step is refused, and a cardinal
/// step behaves exactly as it would with nothing selected.
pub proof fn lemma_selected_steps(pos: (u16, u16), d: Direction, bounds: (u16, u16))
    ensures
        !d.spec_is_orthogonal() ==> spec_move_cursor_to(pos, d, bounds, true) is None,
        d.spec_is_orthogonal() ==> spec_move_cursor_to(pos, d, bounds, true)
            == spec_move_cursor_to(pos, d, bounds, false),
{
}

/// The state engine: the authoritative object collection, board extent,
/// cursor, selection, and the two history stacks.  Operations are
/// transactional: a refused operation leaves the committed state untouched.
pub struct State {
    objects: Vec<Object>,
    board_size: (u16, u16),
    cursor_pos: (u16, u16),
    selected_shape: Option<i32>,
    level_path: Option<String>,
    next_object_id: i32,
    next_shape_id: i32,
    undo: Vec<Turn>,
    redo: Vec<Turn>,
    undo_cap: usize,
}

pub const UNDO_SIZE_IN_TURNS: usize = 100;

pub const INITIAL_BOARD_SIZE_W: u16 = u16::MAX;

pub const INITIAL_BOARD_SIZE_H: u16 = u16::MAX;

impl State {
    pub closed spec fn model(&self) -> StateModel {
        StateModel {
            objects: self.objects@,
            board: self.board_size,
            cursor: self.cursor_pos,
            selected: self.selected_shape,
            level_path: match self.level_path {
                Some(p) => Some(p@),
                Option::None => Option::None,
            },
            undo: turns_view(self.undo@),
            redo: turns_view(self.redo@),
            undo_cap: self.undo_cap as int,
            next_object_id: self.next_object_id as int,
            next_shape_id: self.next_shape_id as int,
        }
    }

    pub open spec fn wf(&self) -> bool {
        wf_model(self.model())
    }

    /// A fresh engine: empty collection and history, the cursor at the
    /// origin of a maximal board, nothing selected.
    pub fn new() -> (s: State)
        ensures
            s.wf(),
            s.model().objects =~= Seq::<Object>::empty(),
            s.model().undo =~= Seq::<(i32, Seq<Object>)>::empty(),
            s.model().redo =~= Seq::<(i32, Seq<Object>)>::empty(),
            s.model().board == (INITIAL_BOARD_SIZE_W, INITIAL_BOARD_SIZE_H),
            s.model().cursor == (0u16, 0u16),
            s.model().selected is None,
            s.model().level_path is None,
            s.model().undo_cap == UNDO_SIZE_IN_TURNS as int,
            s.model().next_object_id == 1,
            s.model().next_shape_id == 1,
    {
        State {
            objects: Vec::new(),
            board_size: (INITIAL_BOARD_SIZE_W, INITIAL_BOARD_SIZE_H),
            cursor_pos: (0, 0),
            selected_shape: Option::None,
            level_path: Option::None,
            next_object_id: 1,
            next_shape_id: 1,
            undo: Vec::new(),
            redo: Vec::new(),
            undo_cap: UNDO_SIZE_IN_TURNS,
        }
    }

    /// A fresh engine that remembers the level file it was asked to play.
    pub fn new_with_level_path(level_path: String) -> (s: State)
        ensures
            s.wf(),
            s.model() == (StateModel { level_path: Some(level_path@), ..State::new_model() }),
    {
        let mut s = State::new();
        s.level_path = Some(level_path);
        proof {
            assert(s.model() =~= (StateModel {
                level_path: Some(level_path@),
                ..State::new_model()
            }));
        }
        s
    }

    /// The model every fresh engine starts from.
    pub open spec fn new_model() -> StateModel {
        StateModel {
            objects: Seq::empty(),
            board: (INITIAL_BOARD_SIZE_W, INITIAL_BOARD_SIZE_H),
            cursor: (0u16, 0u16),
            selected: Option::None,
            level_path: Option::None,
            undo: Seq::empty(),
            redo: Seq::empty(),
            undo_cap: UNDO_SIZE_IN_TURNS as int,
            next_object_id: 1,
            next_shape_id: 1,
        }
    }

    /// Cap the number of undo entries kept; the oldest are evicted first.
    pub fn set_undo_cap(&mut self, cap: usize)
        requires
            old(self).wf(),
            cap >= 1,
        ensures
            final(self).wf(),
            final(self).model() == (StateModel { undo_cap: cap as int, ..old(self).model() }),
    {
        self.undo_cap = cap;
        proof {
            assert(self.model() =~= (StateModel {
                undo_cap: cap as int,
                ..old(self).model()
            }));
        }
    }

    pub fn cursor_position(&self) -> (r: (u16, u16))
        ensures
            r == self.model().cursor,
    {
        self.cursor_pos
    }

    pub fn selected_shape(&self) -> (r: Option<i32>)
        ensures
            r == self.model().selected,
    {
        self.selected_shape
    }

    pub fn board_size(&self) -> (r: (u16, u16))
        ensures
            r == self.model().board,
    {
        self.board_size
    }

    pub fn level_path(&self) -> (r: Option<&String>)
        ensures
            match r {
                Some(p) => self.model().level_path == Some(p@),
                Option::None => self.model().level_path is None,
            },
    {
        self.level_path.as_ref()
    }

    /// The whole collection, in id order.
    pub fn objects(&self) -> (r: Vec<Object>)
        ensures
            r@ == self.model().objects,
    {
        clone_objects(&self.objects)
    }

    /// Draw the next fresh group id.
    pub fn alloc_shape_id(&mut self) -> (r: i32)
        requires
            old(self).wf(),
            old(self).model().next_shape_id < i32::MAX,
        ensures
            final(self).wf(),
            r as int == old(self).model().next_shape_id,
            final(self).model() == (StateModel {
                next_shape_id: old(self).model().next_shape_id + 1,
                ..old(self).model()
            }),
    {
        let r = self.next_shape_id;
        self.next_shape_id = self.next_shape_id + 1;
        proof {
            assert(self.model() =~= (StateModel {
                next_shape_id: old(self).model().next_shape_id + 1,
                ..old(self).model()
            }));
        }
        r
    }

    /// Add one segment to the board under the given group id, drawing a
    /// fresh object id.  Refused (with the collection untouched) exactly
    /// when the mask is not a legal connector mask, the cell is already
    /// occupied, or an allocation counter has no room left.
    pub fn insert_object(
        &mut self,
        shape: i32,
        connectors: i32,
        kind: Kind,
        pos: (u16, u16),
    ) -> (r: Option<i32>)
        requires
            old(self).wf(),
        ensures
            final(self).wf(),
            ({
                let m = old(self).model();
                let candidate = Object {
                    id: m.next_object_id as i32,
                    shape,
                    color: Option::None,
                    connectors,
                    kind,
                    pos,
                };
                let refused = !candidate.wf() || (exists|i: int|
                    0 <= i < m.objects.len() && (#[trigger] m.objects[i]).pos == pos)
                    || m.next_object_id >= i32::MAX || shape >= i32::MAX;
                match r {
                    Option::None => refused && final(self).model() == m,
                    Some(id) => !refused && id as int == m.next_object_id && final(self).model()
                        == (StateModel {
                        objects: m.objects.push(candidate),
                        next_object_id: m.next_object_id + 1,
                        next_shape_id: if shape + 1 > m.next_shape_id {
                            (shape + 1) as int
                        } else {
                            m.next_shape_id
                        },
                        ..m
                    }),
                }
            }),
    {
        let candidate = Object {
            id: self.next_object_id,
            shape,
            color: Option::None,
            connectors,
            kind,
            pos,
        };
        if !candidate.check_wf() || self.next_object_id == i32::MAX || shape == i32::MAX {
            return Option::None;
        }
        let mut i: usize = 0;
        while i < self.objects.len()
            invariant
                *self == *old(self),
                old(self).wf(),
                i <= self.objects.len(),
                forall|k: int| 0 <= k < i ==> (#[trigger] self.objects@[k]).pos != pos,
            decreases self.objects.len() - i,
        {
            if self.objects[i].pos.0 == pos.0 && self.objects[i].pos.1 == pos.1 {
                return Option::None;
            }
            i += 1;
        }
        let id = self.next_object_id;
        self.objects.push(candidate);
        self.next_object_id = id + 1;
        if shape >= self.next_shape_id {
            self.next_shape_id = shape + 1;
        }
        proof {
            let m = old(self).model();
            assert(self.model().objects =~= m.objects.push(candidate));
            assert(self.model().undo =~= m.undo);
            assert(self.model().redo =~= m.redo);
            assert(self.model() =~= (StateModel {
                objects: m.objects.push(candidate),
                next_object_id: m.next_object_id + 1,
                next_shape_id: if shape + 1 > m.next_shape_id {
                    (shape + 1) as int
                } else {
                    m.next_shape_id
                },
                ..m
            }));
            let no = self.model().objects;
            assert forall|a: int, b: int| 0 <= a < b < no.len() implies no[a].id < no[b].id by {
                if b < m.objects.len() {
                } else {
                    assert(no[a] == m.objects[a] && m.objects[a].id < m.next_object_id);
                }
            }
            assert forall|a: int, b: int| 0 <= a < b < no.len() implies no[a].pos != no[b].pos by {
                if b < m.objects.len() {
                } else {
                    assert(no[a] == m.objects[a] && no[a].pos != pos);
                }
            }
            assert forall|a: int| 0 <= a < no.len() implies (#[trigger] no[a]).wf()
                && no[a].color is None by {
                if a < m.objects.len() {
                    assert(no[a] == m.objects[a]);
                }
            }
            assert(objs_wf(no));
            assert(objs_bounded(no, self.model().next_object_id, self.model().next_shape_id));
            assert forall|k: int| 0 <= k < m.undo.len() implies objs_bounded(
                (#[trigger] self.model().undo[k]).1,
                self.model().next_object_id,
                self.model().next_shape_id,
            ) by {
                assert(objs_bounded(m.undo[k].1, m.next_object_id, m.next_shape_id));
            }
            assert forall|k: int| 0 <= k < m.redo.len() implies objs_bounded(
                (#[trigger] self.model().redo[k]).1,
                self.model().next_object_id,
                self.model().next_shape_id,
            ) by {
                assert(objs_bounded(m.redo[k].1, m.next_object_id, m.next_shape_id));
            }
            assert(wf_model(self.model()));
        }
        Some(id)
    }

    /// The segment standing on `pos`, if any; cells hold at most one.
    pub fn object_by_pos(&self, pos: (u16, u16)) -> (r: Option<Object>)
        requires
            self.wf(),
        ensures
            match r {
                Some(o) => o.pos == pos && self.model().objects.contains(o),
                Option::None => forall|i: int|
                    0 <= i < self.model().objects.len() ==> (#[trigger] self.model().objects[i]).pos
                        != pos,
            },
    {
        let mut i: usize = 0;
        while i < self.objects.len()
            invariant
                self.wf(),
                i <= self.objects.len(),
                forall|k: int| 0 <= k < i ==> (#[trigger] self.objects@[k]).pos != pos,
            decreases self.objects.len() - i,
        {
            if self.objects[i].pos.0 == pos.0 && self.objects[i].pos.1 == pos.1 {
                let o = self.objects[i];
                proof {
                    assert(self.model().objects[i as int] == o);
                }
                return Some(o);
            }
            i += 1;
        }
        Option::None
    }

    /// The members of group `shape`, in id order, repainted in `color`.
    pub fn objects_by_shape_with_color(&self, shape: i32, color: Option<Color>) -> (r: Vec<Object>)
        ensures
            r@ == spec_shape_colored(self.model().objects, shape, color),
    {
        filter_shape_colored(&self.objects, shape, color)
    }
}

/// An element-wise copy of a collection.
pub fn clone_objects(v: &Vec<Object>) -> (r: Vec<Object>)
    ensures
        r@ == v@,
{
    let mut r: Vec<Object> = Vec::new();
    let mut i: usize = 0;
    while i < v.len()
        invariant
            i <= v.len(),
            r@ == v@.take(i as int),
        decreases v.len() - i,
    {
        let ghost pre = r@;
        r.push(v[i]);
        proof {
            assert(pre.push(v@[i as int]) =~= v@.take(i as int + 1));
        }
        i += 1;
    }
    proof {
        assert(v@.take(v@.len() as int) =~= v@);
    }
    r
}

/// The members of group `shape` from `v`, in order, repainted in `color`.
pub fn filter_shape_colored(v: &Vec<Object>, shape: i32, color: Option<Color>) -> (r: Vec<Object>)
    ensures
        r@ == spec_shape_colored(v@, shape, color),
{
    let mut r: Vec<Object> = Vec::new();
    let mut i: usize = 0;
    while i < v.len()
        invariant
            i <= v.len(),
            r@ == spec_shape_colored(v@.take(i as int), shape, color),
        decreases v.len() - i,
    {
        let o = v[i];
        proof {
            lemma_shape_colored_push(v@.take(i as int), o, shape, color);
            assert(v@.take(i as int).push(o) =~= v@.take(i as int + 1));
        }
        if o.shape == shape {
            r.push(Object { color, ..o });
            proof {
                assert(spec_with_color(o, color) == (Object { color, ..o }));
            }
        }
        i += 1;
    }
    proof {
        assert(v@.take(v@.len() as int) =~= v@);
    }
    r
}

/// Filtering and repainting distribute over appending one segment.
pub proof fn lemma_shape_colored_push(s: Seq<Object>, o: Object, shape: i32, c: Option<Color>)
    ensures
        spec_shape_colored(s.push(o), shape, c) == if o.shape == shape {
            spec_shape_colored(s, shape, c).push(spec_with_color(o, c))
        } else {
            spec_shape_colored(s, shape, c)
        },
{
    let pred = |x: Object| x.shape == shape;
    let t = s.push(o);
    reveal_with_fuel(Seq::filter, 2);
    assert(t.drop_last() =~= s);
    assert(t.last() == o);
    assert(t.filter(pred) == if pred(o) {
        s.filter(pred).push(o)
    } else {
        s.filter(pred)
    });
    if o.shape == shape {
        assert(s.filter(pred).push(o).map_values(|x: Object| spec_with_color(x, c))
            =~= s.filter(pred).map_values(|x: Object| spec_with_color(x, c)).push(
            spec_with_color(o, c),
        ));
    }
}

/// Every non-wall segment on the board is complete: the win condition.
pub open spec fn spec_all_complete(s: Seq<Object>) -> bool {
    forall|i: int|
        0 <= i < s.len() ==> ((#[trigger] s[i]).connectors != 0
            ==> crate::shapes::spec_object_complete(s, s[i]))
}

/// The status line the engine reports after a change: the first free row,
/// the turn counter, and whether the level is complete.
pub open spec fn spec_turn_counter_payload(m: StateModel) -> StateControlPayload {
    StateControlPayload::TurnCounter(
        (spec_max_y(m.objects) + 1) as u16,
        spec_current_turn(m) as i32,
        spec_all_complete(m.objects),
    )
}

/// What a full redraw emits: clear the terminal, repaint every segment,
/// restate the status line.
pub open spec fn spec_clear_print_all(m: StateModel, out: Seq<StateControlPayload>) -> bool {
    &&& out.len() == 3
    &&& out[0] == StateControlPayload::ClearTerminal
    &&& out[1] is PrintObjects
    &&& out[1]->PrintObjects_0@ == spec_all_colored(m.objects, m.selected)
    &&& out[2] == spec_turn_counter_payload(m)
}

/// The group of the selectable segment standing on `pos`: walls (mask 0)
/// cannot be selected.
pub open spec fn spec_selection_at(s: Seq<Object>, pos: (u16, u16)) -> Option<i32> {
    if exists|i: int| 0 <= i < s.len() && (#[trigger] s[i]).pos == pos && s[i].connectors != 0 {
        Some(
            s[choose|i: int|
                0 <= i < s.len() && (#[trigger] s[i]).pos == pos && s[i].connectors != 0].shape,
        )
    } else {
        Option::None
    }
}

/// In a well-formed collection a cell determines its segment.
pub proof fn lemma_pos_unique(s: Seq<Object>, i: int, j: int)
    requires
        objs_wf(s),
        0 <= i < s.len(),
        0 <= j < s.len(),
        s[i].pos == s[j].pos,
    ensures
        i == j,
{
    if i < j || j < i {
    }
}

impl State {
    /// The current turn number, paired with whether every non-wall segment
    /// is complete.
    pub fn turn_state(&self) -> (r: (i32, bool))
        requires
            self.wf(),
        ensures
            r.0 as int == spec_current_turn(self.model()),
            r.1 == spec_all_complete(self.model().objects),
    {
        (self.current_turn(), self.all_complete())
    }

    fn current_turn(&self) -> (r: i32)
        requires
            self.wf(),
        ensures
            r as int == spec_current_turn(self.model()),
    {
        if self.undo.len() > 0 {
            proof {
                assert(self.model().undo.last() == (
                    self.undo@[self.undo@.len() - 1].turn,
                    self.undo@[self.undo@.len() - 1].objects@,
                ));
            }
            self.undo[self.undo.len() - 1].turn + 1
        } else if self.redo.len() > 0 {
            proof {
                assert(self.model().redo.last() == (
                    self.redo@[self.redo@.len() - 1].turn,
                    self.redo@[self.redo@.len() - 1].objects@,
                ));
            }
            self.redo[self.redo.len() - 1].turn - 1
        } else {
            0
        }
    }

    fn all_complete(&self) -> (r: bool)
        ensures
            r == spec_all_complete(self.objects@),
    {
        let mut i: usize = 0;
        while i < self.objects.len()
            invariant
                i <= self.objects.len(),
                forall|k: int|
                    0 <= k < i ==> ((#[trigger] self.objects@[k]).connectors != 0
                        ==> crate::shapes::spec_object_complete(self.objects@, self.objects@[k])),
            decreases self.objects.len() - i,
        {
            let o = self.objects[i];
            if o.connectors != 0 && !crate::shapes::object_complete(&self.objects, &o) {
                return false;
            }
            i += 1;
        }
        true
    }

    /// The first row below every segment, for the status line: 0 on an
    /// empty board.
    fn status_row(&self) -> (r: u16)
        requires
            self.wf(),
        ensures
            r as int == spec_max_y(self.model().objects) + 1,
    {
        proof {
            lemma_max_coords_bounded(self.model().objects);
        }
        let mut r: i32 = -1;
        let mut i: usize = 0;
        while i < self.objects.len()
            invariant
                self.wf(),
                i <= self.objects.len(),
                r as int == spec_max_y(self.objects@.take(i as int)),
                -1 <= r as int <= crate::object::MAX_COORD as int,
            decreases self.objects.len() - i,
        {
            let o = self.objects[i];
            proof {
                assert(self.objects@.take(i as int + 1).drop_last() =~= self.objects@.take(
                    i as int,
                ));
                assert(self.objects@.take(i as int + 1).last() == o);
                assert(o.wf());
            }
            if o.pos.1 as i32 > r {
                r = o.pos.1 as i32;
            }
            i += 1;
        }
        proof {
            assert(self.objects@.take(self.objects@.len() as int) =~= self.objects@);
        }
        (r + 1) as u16
    }

    /// The status-line notification for the current state.
    pub fn print_turn_counter(&self) -> (out: StateControlPayload)
        requires
            self.wf(),
        ensures
            out == spec_turn_counter_payload(self.model()),
    {
        let (turn, complete) = self.turn_state();
        StateControlPayload::TurnCounter(self.status_row(), turn, complete)
    }

    /// Everything a full redraw sends: clear, repaint all (selection in
    /// white, the rest dark grey), status line.
    pub fn clear_print_all(&self) -> (out: Vec<StateControlPayload>)
        requires
            self.wf(),
        ensures
            spec_clear_print_all(self.model(), out@),
    {
        let mut out: Vec<StateControlPayload> = Vec::new();
        out.push(StateControlPayload::ClearTerminal);
        out.push(StateControlPayload::PrintObjects(self.color_all()));
        out.push(self.print_turn_counter());
        out
    }

    fn color_all(&self) -> (r: Vec<Object>)
        ensures
            r@ == spec_all_colored(self.objects@, self.model().selected),
    {
        let mut r: Vec<Object> = Vec::new();
        let mut i: usize = 0;
        while i < self.objects.len()
            invariant
                i <= self.objects.len(),
                r@ == spec_all_colored(self.objects@.take(i as int), self.selected_shape),
                self.model().selected == self.selected_shape,
            decreases self.objects.len() - i,
        {
            let o = self.objects[i];
            let white = match self.selected_shape {
                Some(sel) => sel == o.shape,
                Option::None => false,
            };
            let c = Some(
                if white {
                    Color::White
                } else {
                    Color::DarkGrey
                },
            );
            r.push(Object { color: c, ..o });
            proof {
                assert(self.objects@.take(i as int + 1) =~= self.objects@.take(i as int).push(o));
                assert(spec_all_colored(self.objects@.take(i as int + 1), self.selected_shape)
                    =~= spec_all_colored(self.objects@.take(i as int), self.selected_shape).push(
                    spec_with_color(o, c),
                ));
            }
            i += 1;
        }
        proof {
            assert(self.objects@.take(self.objects@.len() as int) =~= self.objects@);
        }
        r
    }

    /// Deselect the selected shape, or select the shape under the cursor
    /// (never a wall).  Emits a repaint of the group whose highlight
    /// changed.
    pub fn toggle_select_shape(&mut self) -> (out: Vec<StateControlPayload>)
        requires
            old(self).wf(),
        ensures
            final(self).wf(),
            ({
                let m = old(self).model();
                match m.selected {
                    Some(sh) => {
                        &&& final(self).model() == (StateModel {
                            selected: Option::None,
                            ..m
                        })
                        &&& out@.len() == 1
                        &&& out@[0] is PrintObjects
                        &&& out@[0]->PrintObjects_0@ == spec_shape_colored(
                            m.objects,
                            sh,
                            Some(Color::DarkGrey),
                        )
                    },
                    Option::None => {
                        let sel = spec_selection_at(m.objects, m.cursor);
                        &&& final(self).model() == (StateModel { selected: sel, ..m })
                        &&& match sel {
                            Some(sh) => out@.len() == 1 && out@[0] is PrintObjects
                                && out@[0]->PrintObjects_0@ == spec_shape_colored(
                                m.objects,
                                sh,
                                Some(Color::White),
                            ),
                            Option::None => out@.len() == 0,
                        }
                    },
                }
            }),
    {
        let mut out: Vec<StateControlPayload> = Vec::new();
        match self.selected_shape {
            Some(shape) => {
                out.push(
                    StateControlPayload::PrintObjects(
                        self.objects_by_shape_with_color(shape, Some(Color::DarkGrey)),
                    ),
                );
                self.selected_shape = Option::None;
                proof {
                    assert(self.model() =~= (StateModel {
                        selected: Option::None,
                        ..old(self).model()
                    }));
                }
            },
            Option::None => {
                let found = self.object_by_pos(self.cursor_position());
                let sel = match found {
                    Some(o) => {
                        if o.connectors() != 0 {
                            Some(o.shape)
                        } else {
                            Option::None
                        }
                    },
                    Option::None => Option::None,
                };
                proof {
                    let m = old(self).model();
                    match found {
                        Some(o) => {
                            let k = choose|k: int|
                                0 <= k < m.objects.len() && m.objects[k] == o;
                            if o.connectors != 0 {
                                assert(m.objects[k].pos == m.cursor && m.objects[k].connectors
                                    != 0);
                                let c = choose|i: int|
                                    0 <= i < m.objects.len() && (#[trigger] m.objects[i]).pos
                                        == m.cursor && m.objects[i].connectors != 0;
                                lemma_pos_unique(m.objects, k, c);
                                assert(sel == spec_selection_at(m.objects, m.cursor));
                            } else {
                                if exists|i: int|
                                    0 <= i < m.objects.len() && (#[trigger] m.objects[i]).pos
                                        == m.cursor && m.objects[i].connectors != 0 {
                                    let c = choose|i: int|
                                        0 <= i < m.objects.len() && (#[trigger] m.objects[i]).pos
                                            == m.cursor && m.objects[i].connectors != 0;
                                    lemma_pos_unique(m.objects, k, c);
                                }
                                assert(sel == spec_selection_at(m.objects, m.cursor));
                            }
                        },
                        Option::None => {
                            assert(sel == spec_selection_at(m.objects, m.cursor));
                        },
                    }
                }
                self.selected_shape = sel;
                if let Some(shape) = sel {
                    out.push(
                        StateControlPayload::PrintObjects(
                            self.objects_by_shape_with_color(shape, Some(Color::White)),
                        ),
                    );
                }
                proof {
                    assert(self.model() =~= (StateModel {
                        selected: spec_selection_at(old(self).model().objects, old(
                            self,
                        ).model().cursor),
                        ..old(self).model()
                    }));
                }
            },
        }
        out
    }

    /// Park the cursor on `pos` (a mouse click), dropping any selection
    /// first.
    pub fn set_cursor_position(&mut self, pos: (u16, u16)) -> (out: Vec<StateControlPayload>)
        requires
            old(self).wf(),
        ensures
            final(self).wf(),
            ({
                let m = old(self).model();
                &&& final(self).model() == (StateModel {
                    cursor: pos,
                    selected: Option::None,
                    ..m
                })
                &&& match m.selected {
                    Some(sh) => out@.len() == 2 && out@[0] is PrintObjects
                        && out@[0]->PrintObjects_0@ == spec_shape_colored(
                        m.objects,
                        sh,
                        Some(Color::DarkGrey),
                    ) && out@[1] == StateControlPayload::SetCursorPosition(pos),
                    Option::None => out@.len() == 1 && out@[0]
                        == StateControlPayload::SetCursorPosition(pos),
                }
            }),
    {
        let mut out: Vec<StateControlPayload> = Vec::new();
        if self.selected_shape.is_some() {
            let mut t = self.toggle_select_shape();
            out.append(&mut t);
        }
        self.cursor_pos = pos;
        out.push(StateControlPayload::SetCursorPosition(pos));
        proof {
            assert(self.model() =~= (StateModel {
                cursor: pos,
                selected: Option::None,
                ..old(self).model()
            }));
        }
        out
    }

    /// Grow the board to the requested size, never truncating content: the
    /// committed size covers the bounding box of every segment.  A change
    /// is followed by a resize notification and a full redraw.
    pub fn set_board_size(&mut self, size: (u16, u16)) -> (out: Vec<StateControlPayload>)
        requires
            old(self).wf(),
        ensures
            final(self).wf(),
            ({
                let m = old(self).model();
                let nb = spec_grown_board(m.objects, size);
                &&& final(self).model() == (StateModel { board: nb, ..m })
                &&& if nb == m.board {
                    out@.len() == 0
                } else {
                    out@.len() == 4 && out@[0] == StateControlPayload::ResizeTerminal(nb)
                        && spec_clear_print_all(final(self).model(), out@.skip(1))
                }
            }),
    {
        let old_board = self.board_size;
        let new_board = if self.objects.len() > 0 {
            proof {
                lemma_max_coords_bounded(self.model().objects);
            }
            let mx = self.content_max_x();
            let my = self.content_max_y();
            (
                if mx >= size.0 {
                    mx
                } else {
                    size.0
                },
                if my >= size.1 {
                    my
                } else {
                    size.1
                },
            )
        } else {
            size
        };
        self.board_size = new_board;
        proof {
            assert(self.model() =~= (StateModel {
                board: spec_grown_board(old(self).model().objects, size),
                ..old(self).model()
            }));
        }
        let mut out: Vec<StateControlPayload> = Vec::new();
        if old_board.0 != new_board.0 || old_board.1 != new_board.1 {
            out.push(StateControlPayload::ResizeTerminal(new_board));
            let mut t = self.clear_print_all();
            let ghost tv = t@;
            out.append(&mut t);
            proof {
                assert(out@.skip(1) =~= tv);
            }
        }
        out
    }

    fn content_max_x(&self) -> (r: u16)
        requires
            self.wf(),
            self.model().objects.len() > 0,
        ensures
            r as int == spec_max_x(self.model().objects),
    {
        proof {
            lemma_max_coords_bounded(self.model().objects);
        }
        let mut r: i32 = -1;
        let mut i: usize = 0;
        while i < self.objects.len()
            invariant
                self.wf(),
                i <= self.objects.len(),
                r as int == spec_max_x(self.objects@.take(i as int)),
                -1 <= r as int <= crate::object::MAX_COORD as int,
            decreases self.objects.len() - i,
        {
            let o = self.objects[i];
            proof {
                assert(self.objects@.take(i as int + 1).drop_last() =~= self.objects@.take(
                    i as int,
                ));
                assert(self.objects@.take(i as int + 1).last() == o);
                assert(o.wf());
            }
            if o.pos.0 as i32 > r {
                r = o.pos.0 as i32;
            }
            i += 1;
        }
        proof {
            assert(self.objects@.take(self.objects@.len() as int) =~= self.objects@);
        }
        r as u16
    }

    fn content_max_y(&self) -> (r: u16)
        requires
            self.wf(),
            self.model().objects.len() > 0,
        ensures
            r as int == spec_max_y(self.model().objects),
    {
        proof {
            lemma_max_coords_bounded(self.model().objects);
        }
        let mut r: i32 = -1;
        let mut i: usize = 0;
        while i < self.objects.len()
            invariant
                self.wf(),
                i <= self.objects.len(),
                r as int == spec_max_y(self.objects@.take(i as int)),
                -1 <= r as int <= crate::object::MAX_COORD as int,
            decreases self.objects.len() - i,
        {
            let o = self.objects[i];
            proof {
                assert(self.objects@.take(i as int + 1).drop_last() =~= self.objects@.take(
                    i as int,
                ));
                assert(self.objects@.take(i as int + 1).last() == o);
                assert(o.wf());
            }
            if o.pos.1 as i32 > r {
                r = o.pos.1 as i32;
            }
            i += 1;
        }
        proof {
            assert(self.objects@.take(self.objects@.len() as int) =~= self.objects@);
        }
        r as u16
    }
}

/// The board size committed for a resize request: the request, grown to the
/// bounding box of the content.
pub open spec fn spec_grown_board(s: Seq<Object>, size: (u16, u16)) -> (u16, u16) {
    if s.len() > 0 {
        (
            if spec_max_x(s) >= size.0 as int {
                spec_max_x(s) as u16
            } else {
                size.0
            },
            if spec_max_y(s) >= size.1 as int {
                spec_max_y(s) as u16
            } else {
                size.1
            },
        )
    } else {
        size
    }
}


/// What one undo does: swap the live collection with the newest undo
/// snapshot, push the displaced state onto redo, drop any selection.  A
/// no-op when there is nothing to undo.
pub open spec fn spec_undo_model(m: StateModel) -> StateModel {
    if m.undo.len() == 0 {
        m
    } else {
        StateModel {
            objects: m.undo.last().1,
            selected: Option::None,
            undo: m.undo.drop_last(),
            redo: m.redo.push(((m.undo.last().0 + 1) as i32, m.objects)),
            ..m
        }
    }
}

/// What one redo does: the mirror image of [`spec_undo_model`].
pub open spec fn spec_redo_model(m: StateModel) -> StateModel {
    if m.redo.len() == 0 {
        m
    } else {
        StateModel {
            objects: m.redo.last().1,
            selected: Option::None,
            redo: m.redo.drop_last(),
            undo: m.undo.push(((m.redo.last().0 - 1) as i32, m.objects)),
            ..m
        }
    }
}

impl State {
    /// Undo the newest committed move, atomically swapping the live
    /// collection with the top of the undo stack; the displaced state goes
    /// to redo and the selection clears.  No-op if the stack is empty.
    pub fn undo(&mut self) -> (out: Vec<StateControlPayload>)
        requires
            old(self).wf(),
        ensures
            final(self).wf(),
            final(self).model() == spec_undo_model(old(self).model()),
            if old(self).model().undo.len() == 0 {
                out@.len() == 0
            } else {
                out@.len() == 4 && spec_clear_print_all(final(self).model(), out@.take(3))
                    && out@[3] == spec_turn_counter_payload(final(self).model())
            },
    {
        if self.undo.len() == 0 {
            proof {
                assert(self.model() =~= spec_undo_model(old(self).model()));
            }
            return Vec::new();
        }
        let ghost m = self.model();
        proof {
            assert(m.undo[m.undo.len() - 1] == (
                self.undo@[self.undo@.len() - 1].turn,
                self.undo@[self.undo@.len() - 1].objects@,
            ));
        }
        let t = self.undo.pop().unwrap();
        let snap_turn = t.turn + 1;
        let cur = clone_objects(&self.objects);
        self.objects = t.objects;
        self.redo.push(Turn { turn: snap_turn, objects: cur });
        self.selected_shape = Option::None;
        proof {
            assert(self.undo@ =~= old(self).undo@.drop_last());
            assert(self.model().undo =~= m.undo.drop_last());
            assert(self.model().redo =~= m.redo.push(((m.undo.last().0 + 1) as i32, m.objects)));
            assert(self.model() =~= spec_undo_model(m));
            let f = self.model();
            if m.undo.len() > 1 {
                assert(m.undo[m.undo.len() - 2].0 < m.undo[m.undo.len() - 1].0);
            }
            assert(wf_model(f)) by {
                assert forall|k1: int, k2: int|
                    0 <= k1 < k2 < f.redo.len() implies f.redo[k1].0 > f.redo[k2].0 by {
                    if k2 < m.redo.len() {
                        assert(f.redo[k1] == m.redo[k1] && f.redo[k2] == m.redo[k2]);
                    } else {
                        assert(f.redo[k2].0 == m.undo.last().0 + 1);
                        if k1 < m.redo.len() {
                            assert(f.redo[k1] == m.redo[k1]);
                            assert(m.redo[k1].0 >= m.redo.last().0);
                        }
                    }
                }
            }
        }
        let mut out = self.clear_print_all();
        out.push(self.print_turn_counter());
        proof {
            assert(out@.take(3) =~= out@.subrange(0, 3));
        }
        out
    }

    /// Redo the newest undone move: the mirror image of [`State::undo`].
    pub fn redo(&mut self) -> (out: Vec<StateControlPayload>)
        requires
            old(self).wf(),
        ensures
            final(self).wf(),
            final(self).model() == spec_redo_model(old(self).model()),
            if old(self).model().redo.len() == 0 {
                out@.len() == 0
            } else {
                out@.len() == 4 && spec_clear_print_all(final(self).model(), out@.take(3))
                    && out@[3] == spec_turn_counter_payload(final(self).model())
            },
    {
        if self.redo.len() == 0 {
            proof {
                assert(self.model() =~= spec_redo_model(old(self).model()));
            }
            return Vec::new();
        }
        let ghost m = self.model();
        proof {
            assert(m.redo[m.redo.len() - 1] == (
                self.redo@[self.redo@.len() - 1].turn,
                self.redo@[self.redo@.len() - 1].objects@,
            ));
        }
        let t = self.redo.pop().unwrap();
        let snap_turn = t.turn - 1;
        let cur = clone_objects(&self.objects);
        self.objects = t.objects;
        self.undo.push(Turn { turn: snap_turn, objects: cur });
        self.selected_shape = Option::None;
        proof {
            assert(self.redo@ =~= old(self).redo@.drop_last());
            assert(self.model().redo =~= m.redo.drop_last());
            assert(self.model().undo =~= m.undo.push(((m.redo.last().0 - 1) as i32, m.objects)));
            assert(self.model() =~= spec_redo_model(m));
            let f = self.model();
            if m.redo.len() > 1 {
                assert(m.redo[m.redo.len() - 2].0 > m.redo[m.redo.len() - 1].0);
            }
            assert(wf_model(f)) by {
                assert forall|k1: int, k2: int|
                    0 <= k1 < k2 < f.undo.len() implies f.undo[k1].0 < f.undo[k2].0 by {
                    if k2 < m.undo.len() {
                        assert(f.undo[k1] == m.undo[k1] && f.undo[k2] == m.undo[k2]);
                    } else {
                        assert(f.undo[k2].0 == m.redo.last().0 - 1);
                        if k1 < m.undo.len() {
                            assert(f.undo[k1] == m.undo[k1]);
                        }
                    }
                }
            }
        }
        let mut out = self.clear_print_all();
        out.push(self.print_turn_counter());
        proof {
            assert(out@.take(3) =~= out@.subrange(0, 3));
        }
        out
    }

    /// Where one cursor step lands, or `None` when it is refused: decides
    /// [`spec_move_cursor_to`].
    pub fn move_cursor_to(
        pos: &(u16, u16),
        direction: Direction,
        bounds: (u16, u16),
        shape_selected: bool,
    ) -> (r: Option<(u16, u16)>)
        ensures
            r == spec_move_cursor_to(*pos, direction, bounds, shape_selected),
    {
        if shape_selected && !direction.is_orthogonal() {
            return Option::None;
        }
        let (dx, dy): (i32, i32) = crate::shapes::dir_delta_pub(direction);
        let nx = pos.0 as i32 + dx;
        let ny = pos.1 as i32 + dy;
        if nx < 0 || ny < 0 || (dx > 0 && nx >= bounds.0 as i32) || (dy > 0 && ny
            >= bounds.1 as i32) {
            return Option::None;
        }
        Some((nx as u16, ny as u16))
    }
}


/// Both-coordinate step of a whole-shape move.
pub open spec fn spec_translated(o: Object, dx: int, dy: int) -> Object {
    Object { pos: ((o.pos.0 + dx) as u16, (o.pos.1 + dy) as u16), ..o }
}

/// A member of `shape`.
pub open spec fn is_member(o: Object, shape: i32) -> bool {
    o.shape == shape
}

/// Every member of `shape` can translate by `(dx, dy)`: it stays in the
/// legal extent, inside the board, and lands on no cell occupied by a
/// segment of another shape.
pub open spec fn spec_move_ok(
    s: Seq<Object>,
    shape: i32,
    dx: int,
    dy: int,
    bounds: (u16, u16),
) -> bool {
    forall|i: int|
        0 <= i < s.len() && (#[trigger] s[i]).shape == shape ==> {
            let nx = s[i].pos.0 + dx;
            let ny = s[i].pos.1 + dy;
            &&& 0 <= nx <= crate::object::MAX_COORD as int
            &&& 0 <= ny <= crate::object::MAX_COORD as int
            &&& nx < bounds.0 as int
            &&& ny < bounds.1 as int
            &&& forall|j: int|
                0 <= j < s.len() && (#[trigger] s[j]).shape != shape ==> !(s[j].pos.0 == nx
                    && s[j].pos.1 == ny)
        }
}

/// The collection with every member of `shape` translated.
pub open spec fn spec_translate_all(s: Seq<Object>, shape: i32, dx: int, dy: int) -> Seq<Object> {
    s.map_values(
        |o: Object|
            if o.shape == shape {
                spec_translated(o, dx, dy)
            } else {
                o
            },
    )
}

/// Group `sid` touches the moved shape: some of its segments joins some
/// member through matching ends.
pub open spec fn spec_absorbed_shape(s: Seq<Object>, shape: i32, sid: i32) -> bool {
    sid != shape && exists|i: int, j: int|
        0 <= i < s.len() && 0 <= j < s.len() && (#[trigger] s[i]).shape == shape && (
        #[trigger] s[j]).shape == sid && crate::geometry::spec_connects(s[i], s[j])
}

/// The collection after the merge step: every group that touches the moved
/// shape is absorbed into it whole.
pub open spec fn spec_merged(s: Seq<Object>, shape: i32) -> Seq<Object> {
    s.map_values(
        |o: Object|
            if spec_absorbed_shape(s, shape, o.shape) {
                Object { shape, ..o }
            } else {
                o
            },
    )
}

/// Did the merge step absorb anything?
pub open spec fn spec_any_absorbed(s: Seq<Object>, shape: i32) -> bool {
    exists|j: int| 0 <= j < s.len() && spec_absorbed_shape(s, shape, (#[trigger] s[j]).shape)
}

/// Every member of `shape` has all its ends matched within the collection.
pub open spec fn spec_shape_complete(s: Seq<Object>, shape: i32) -> bool {
    forall|i: int|
        0 <= i < s.len() && (#[trigger] s[i]).shape == shape
            ==> crate::shapes::spec_object_complete(s, s[i])
}

/// Some member of `shape` is a door.
pub open spec fn spec_shape_has_door(s: Seq<Object>, shape: i32) -> bool {
    exists|i: int|
        0 <= i < s.len() && (#[trigger] s[i]).shape == shape && s[i].kind == Kind::Door
}

/// A door segment whose ends are all special: once its shape closes it is
/// satisfied outright and is removed.
pub open spec fn spec_fully_special_door(o: Object) -> bool {
    o.kind == Kind::Door && o.connectors & 0xF0 != 0 && o.connectors & 0x0F == 0
}

/// The collection with the satisfied doors of `shape` removed.
pub open spec fn spec_door_deleted(s: Seq<Object>, shape: i32) -> Seq<Object> {
    s.filter(|o: Object| !(o.shape == shape && spec_fully_special_door(o)))
}

/// The collection with the remaining doors of `shape` demoted: their
/// special ends cleared and their kind reset.
pub open spec fn spec_door_demoted(s: Seq<Object>, shape: i32) -> Seq<Object> {
    s.map_values(
        |o: Object|
            if o.shape == shape && o.kind == Kind::Door {
                Object { connectors: o.connectors & 0x0F, kind: Kind::Plain, ..o }
            } else {
                o
            },
    )
}

/// Equal in everything but the group id.
pub open spec fn eq_except_shape(a: Object, b: Object) -> bool {
    a.id == b.id && a.color == b.color && a.connectors == b.connectors && a.kind == b.kind
        && a.pos == b.pos
}

/// The member mask of `shape` over a collection.
pub open spec fn spec_member_mask(s: Seq<Object>, shape: i32) -> Seq<bool> {
    Seq::new(s.len(), |i: int| s[i].shape == shape)
}

/// `f` is `dem` re-partitioned: the members of the (possibly split) moved
/// shape carry fresh group ids, two of them equal exactly when the segments
/// are still transitively connected; everything else is untouched.
pub open spec fn spec_repartitioned(dem: Seq<Object>, shape: i32, f: Seq<Object>) -> bool {
    let mask = spec_member_mask(dem, shape);
    &&& f.len() == dem.len()
    &&& forall|i: int| 0 <= i < f.len() ==> eq_except_shape(#[trigger] f[i], dem[i])
    &&& forall|i: int|
        0 <= i < f.len() && (#[trigger] dem[i]).shape != shape ==> f[i].shape == dem[i].shape
    &&& forall|i: int, j: int|
        0 <= i < f.len() && 0 <= j < f.len() && (#[trigger] dem[i]).shape == shape && (
        #[trigger] dem[j]).shape == shape ==> (f[i].shape == f[j].shape
            <==> crate::shapes::reachable(dem, mask, i, j))
    &&& forall|i: int, j: int|
        0 <= i < f.len() && 0 <= j < dem.len() && (#[trigger] dem[i]).shape == shape
            ==> f[i].shape != (#[trigger] dem[j]).shape
}

/// The report of a door opening, cell by cell over the footprint the
/// completed shape covered: a removed door is reported as an empty
/// `Removed` cell, every surviving segment with its new group id in dark
/// grey.
pub open spec fn spec_door_report(fp: Seq<Object>, f: Seq<Object>, out: Seq<Object>) -> bool {
    &&& out.len() == fp.len()
    &&& forall|k: int|
        0 <= k < fp.len() ==> if spec_fully_special_door(#[trigger] fp[k]) {
            out[k] == (Object {
                id: fp[k].id,
                shape: 0,
                color: Option::None,
                connectors: 0,
                kind: Kind::Removed,
                pos: fp[k].pos,
            })
        } else {
            exists|j: int|
                0 <= j < f.len() && (#[trigger] f[j]).id == fp[k].id && out[k] == spec_with_color(
                    f[j],
                    Some(Color::DarkGrey),
                )
        }
}

/// Where the selection lands after a door opens: the new group covering the
/// cursor's destination cell, nothing if that cell's door was removed, and
/// the moved shape's old id if the destination lies outside the footprint.
pub open spec fn spec_door_selection(
    fp: Seq<Object>,
    f: Seq<Object>,
    shape: i32,
    there: (u16, u16),
) -> Option<i32> {
    if exists|k: int| 0 <= k < fp.len() && (#[trigger] fp[k]).pos == there {
        let k = choose|k: int| 0 <= k < fp.len() && (#[trigger] fp[k]).pos == there;
        if spec_fully_special_door(fp[k]) {
            Option::None
        } else if exists|j: int| 0 <= j < f.len() && (#[trigger] f[j]).id == fp[k].id {
            let j = choose|j: int| 0 <= j < f.len() && (#[trigger] f[j]).id == fp[k].id;
            Some(f[j].shape)
        } else {
            Option::None
        }
    } else {
        Some(shape)
    }
}

/// The undo stack with its entries older than the cap dropped, oldest
/// first.
pub open spec fn spec_drop_old(u: Seq<(i32, Seq<Object>)>, threshold: int) -> Seq<
    (i32, Seq<Object>),
>
    decreases u.len(),
{
    if u.len() == 0 {
        u
    } else if u.first().0 <= threshold {
        spec_drop_old(u.drop_first(), threshold)
    } else {
        u
    }
}


/// What a committed move did to the engine, and what it reported: the old
/// collection is snapshotted onto the capped undo stack, redo clears, the
/// members translate, touching groups merge, and a completed shape with a
/// door opens it.  `hs` and `ts` are the reported cells before and after;
/// `sel` is where the selection lands.
pub open spec fn spec_move_commit(
    m: StateModel,
    f: StateModel,
    shape: i32,
    dx: int,
    dy: int,
    there: (u16, u16),
    hs: Seq<Object>,
    ts: Seq<Object>,
    sel: Option<i32>,
) -> bool {
    let t = spec_translate_all(m.objects, shape, dx, dy);
    let g = spec_merged(t, shape);
    let door_case = spec_any_absorbed(t, shape) && spec_shape_complete(g, shape)
        && spec_shape_has_door(g, shape);
    &&& f.board == m.board
    &&& f.level_path == m.level_path
    &&& f.undo_cap == m.undo_cap
    &&& f.next_object_id == m.next_object_id
    &&& f.undo == spec_drop_old(
        m.undo.push((spec_current_turn(m) as i32, m.objects)),
        spec_current_turn(m) - m.undo_cap,
    )
    &&& f.redo.len() == 0
    &&& hs == m.objects.filter(|o: Object| o.shape == shape)
    &&& if !door_case {
        &&& f.objects == g
        &&& f.next_shape_id == m.next_shape_id
        &&& ts == spec_shape_colored(g, shape, Some(Color::White))
        &&& sel == Some(shape)
    } else {
        let dem = spec_door_demoted(spec_door_deleted(g, shape), shape);
        let fp = g.filter(|o: Object| o.shape == shape);
        &&& spec_repartitioned(dem, shape, f.objects)
        &&& f.next_shape_id >= m.next_shape_id
        &&& spec_door_report(fp, f.objects, ts)
        &&& sel == spec_door_selection(fp, f.objects, shape, there)
    }
}

/// A move of `shape` by the cursor step from `here` to `there` commits
/// exactly when the shape is present, every member can translate, and the
/// machine counters have room for one more turn and for fresh group ids.
pub open spec fn spec_move_valid(
    m: StateModel,
    shape: i32,
    dx: int,
    dy: int,
    bounds: (u16, u16),
) -> bool {
    &&& m.objects.filter(|o: Object| o.shape == shape).len() > 0
    &&& spec_move_ok(m.objects, shape, dx, dy, bounds)
    &&& spec_current_turn(m) < i32::MAX
    &&& m.next_shape_id + m.objects.len() <= i32::MAX
}

/// A low nibble taken alone is a well-formed connector mask.
pub proof fn lemma_low_nibble_wf(c: i32)
    requires
        0 <= c <= 255,
    ensures
        0 <= c & 0x0F <= 255,
        ((c & 0x0F) >> 4) & (c & 0x0F) & 0xF == 0,
{
    assert((0 <= c <= 255) ==> (0 <= c & 0x0F <= 255 && ((c & 0x0F) >> 4) & (c & 0x0F) & 0xF
        == 0)) by (bit_vector);
}

/// In a well-formed collection an id determines its segment.
pub proof fn lemma_id_unique(s: Seq<Object>, i: int, j: int)
    requires
        forall|a: int, b: int| 0 <= a < b < s.len() ==> s[a].id < s[b].id,
        0 <= i < s.len(),
        0 <= j < s.len(),
        s[i].id == s[j].id,
    ensures
        i == j,
{
    if i < j || j < i {
    }
}

/// Filtering keeps a collection well formed.
pub proof fn lemma_filter_objs_wf(s: Seq<Object>, pred: spec_fn(Object) -> bool)
    requires
        objs_wf(s),
    ensures
        objs_wf(s.filter(pred)),
    decreases s.len(),
{
    reveal_with_fuel(Seq::filter, 2);
    if s.len() > 0 {
        let b = s.drop_last();
        assert(objs_wf(b)) by {
            assert(forall|i: int| 0 <= i < b.len() ==> b[i] == (#[trigger] s[i]));
        }
        lemma_filter_objs_wf(b, pred);
        if pred(s.last()) {
            let r = b.filter(pred).push(s.last());
            assert(s.filter(pred) == r);
            assert forall|a: int, c: int| 0 <= a < c < r.len() implies r[a].id < r[c].id
                && r[a].pos != r[c].pos by {
                if c < r.len() - 1 {
                } else {
                    assert(r[a] == b.filter(pred)[a]);
                    assert(b.filter(pred).contains(b.filter(pred)[a]));
                    b.lemma_filter_contains_rev(pred, b.filter(pred)[a]);
                    let src = choose|t: int| 0 <= t < b.len() && b[t] == r[a];
                    assert(s[src] == r[a] && s.last() == r[c] && src < s.len() - 1);
                }
            }
        }
    }
}


/// The members of group `shape`, in id order, exactly as stored.
pub fn members_of(v: &Vec<Object>, shape: i32) -> (r: Vec<Object>)
    ensures
        r@ == v@.filter(|o: Object| o.shape == shape),
{
    let mut r: Vec<Object> = Vec::new();
    let mut i: usize = 0;
    while i < v.len()
        invariant
            i <= v.len(),
            r@ == v@.take(i as int).filter(|o: Object| o.shape == shape),
        decreases v.len() - i,
    {
        let o = v[i];
        proof {
            reveal_with_fuel(Seq::filter, 2);
            assert(v@.take(i as int + 1).drop_last() =~= v@.take(i as int));
            assert(v@.take(i as int + 1).last() == o);
        }
        if o.shape == shape {
            r.push(o);
        }
        i += 1;
    }
    proof {
        assert(v@.take(v@.len() as int) =~= v@);
    }
    r
}

/// Decides [`spec_move_ok`].
fn shape_move_valid(v: &Vec<Object>, shape: i32, dx: i32, dy: i32, bounds: (u16, u16)) -> (r: bool)
    requires
        -65535 <= dx <= 65535,
        -65535 <= dy <= 65535,
    ensures
        r == spec_move_ok(v@, shape, dx as int, dy as int, bounds),
{
    let mut i: usize = 0;
    while i < v.len()
        invariant
            i <= v.len(),
            -65535 <= dx <= 65535,
            -65535 <= dy <= 65535,
            forall|k: int|
                0 <= k < i && (#[trigger] v@[k]).shape == shape ==> {
                    let nx = v@[k].pos.0 + dx;
                    let ny = v@[k].pos.1 + dy;
                    &&& 0 <= nx <= crate::object::MAX_COORD as int
                    &&& 0 <= ny <= crate::object::MAX_COORD as int
                    &&& nx < bounds.0 as int
                    &&& ny < bounds.1 as int
                    &&& forall|j: int|
                        0 <= j < v@.len() && (#[trigger] v@[j]).shape != shape ==> !(v@[j].pos.0
                            == nx && v@[j].pos.1 == ny)
                },
        decreases v.len() - i,
    {
        let o = v[i];
        if o.shape == shape {
            let nx = o.pos.0 as i32 + dx;
            let ny = o.pos.1 as i32 + dy;
            if nx < 0 || nx > crate::object::MAX_COORD as i32 || ny < 0 || ny
                > crate::object::MAX_COORD as i32 || nx >= bounds.0 as i32 || ny
                >= bounds.1 as i32 {
                proof {
                    assert(v@[i as int].shape == shape);
                    assert(!spec_move_ok(v@, shape, dx as int, dy as int, bounds));
                }
                return false;
            }
            let mut j: usize = 0;
            while j < v.len()
                invariant
                    j <= v.len(),
                    0 <= nx as int <= crate::object::MAX_COORD as int,
                    0 <= ny as int <= crate::object::MAX_COORD as int,
                    i < v.len(),
                    o == v@[i as int],
                    o.shape == shape,
                    nx as int == o.pos.0 + dx,
                    ny as int == o.pos.1 + dy,
                    forall|k: int|
                        0 <= k < j && (#[trigger] v@[k]).shape != shape ==> !(v@[k].pos.0
                            == nx as int && v@[k].pos.1 == ny as int),
                decreases v.len() - j,
            {
                let p = v[j];
                if p.shape != shape && p.pos.0 as i32 == nx && p.pos.1 as i32 == ny {
                    proof {
                        assert(o.shape == shape);
                        assert(v@[j as int].shape != shape && v@[j as int].pos.0 == nx as int
                            && v@[j as int].pos.1 == ny as int);
                        assert(!spec_move_ok(v@, shape, dx as int, dy as int, bounds));
                    }
                    return false;
                }
                j += 1;
            }
        }
        i += 1;
    }
    true
}

/// Translate every member of `shape` by `(dx, dy)` in place.
fn translate_shape(v: &mut Vec<Object>, shape: i32, dx: i32, dy: i32)
    requires
        -65535 <= dx <= 65535,
        -65535 <= dy <= 65535,
        forall|i: int|
            0 <= i < old(v)@.len() && (#[trigger] old(v)@[i]).shape == shape ==> 0 <= old(
                v,
            )@[i].pos.0 + dx <= crate::object::MAX_COORD as int && 0 <= old(v)@[i].pos.1 + dy
                <= crate::object::MAX_COORD as int,
    ensures
        final(v)@ == spec_translate_all(old(v)@, shape, dx as int, dy as int),
{
    let n = v.len();
    let mut i: usize = 0;
    while i < n
        invariant
            v@.len() == n,
            i <= n,
            old(v)@.len() == n,
            -65535 <= dx <= 65535,
            -65535 <= dy <= 65535,
            forall|k: int|
                0 <= k < old(v)@.len() && (#[trigger] old(v)@[k]).shape == shape ==> 0 <= old(
                    v,
                )@[k].pos.0 + dx <= crate::object::MAX_COORD as int && 0 <= old(v)@[k].pos.1 + dy
                    <= crate::object::MAX_COORD as int,
            forall|k: int| i <= k < n ==> v@[k] == old(v)@[k],
            forall|k: int|
                0 <= k < i ==> v@[k] == (if old(v)@[k].shape == shape {
                    spec_translated(old(v)@[k], dx as int, dy as int)
                } else {
                    old(v)@[k]
                }),
        decreases n - i,
    {
        let o = v[i];
        if o.shape == shape {
            let nx = (o.pos.0 as i32 + dx) as u16;
            let ny = (o.pos.1 as i32 + dy) as u16;
            v.set(i, Object { pos: (nx, ny), ..o });
        }
        i += 1;
    }
    proof {
        assert(v@ =~= spec_translate_all(old(v)@, shape, dx as int, dy as int));
    }
}

/// Absorb into `shape` every group that touches it; reports whether any
/// group was absorbed.
fn merge_into(v: &mut Vec<Object>, shape: i32) -> (any: bool)
    ensures
        final(v)@ == spec_merged(old(v)@, shape),
        any == spec_any_absorbed(old(v)@, shape),
{
    let n = v.len();
    let ghost s = v@;
    let mut touch: Vec<bool> = Vec::new();
    let mut j: usize = 0;
    while j < n
        invariant
            v@ == s,
            v@.len() == n,
            j <= n,
            touch@.len() == j,
            forall|k: int|
                0 <= k < j ==> (touch@[k] <==> (s[k].shape != shape && exists|i: int|
                    0 <= i < s.len() && (#[trigger] s[i]).shape == shape
                        && crate::geometry::spec_connects(s[i], s[k]))),
        decreases n - j,
    {
        let mut t = false;
        if v[j].shape != shape {
            let mut i: usize = 0;
            while i < n
                invariant
                    v@ == s,
                    v@.len() == n,
                    j < n,
                    i <= n,
                    t <==> exists|k: int|
                        0 <= k < i && (#[trigger] s[k]).shape == shape
                            && crate::geometry::spec_connects(s[k], s[j as int]),
                decreases n - i,
            {
                if v[i].shape == shape && crate::geometry::connects(&v[i], &v[j]) {
                    t = true;
                }
                i += 1;
            }
        }
        touch.push(t);
        j += 1;
    }
    let mut absorbed: Vec<bool> = Vec::new();
    let mut any = false;
    let mut j2: usize = 0;
    while j2 < n
        invariant
            v@ == s,
            v@.len() == n,
            touch@.len() == n,
            j2 <= n,
            absorbed@.len() == j2,
            forall|k: int|
                0 <= k < n ==> (touch@[k] <==> (s[k].shape != shape && exists|i: int|
                    0 <= i < s.len() && (#[trigger] s[i]).shape == shape
                        && crate::geometry::spec_connects(s[i], s[k]))),
            forall|k: int|
                0 <= k < j2 ==> (absorbed@[k] <==> spec_absorbed_shape(s, shape, s[k].shape)),
            any <==> exists|k: int|
                0 <= k < j2 && spec_absorbed_shape(s, shape, (#[trigger] s[k]).shape),
        decreases n - j2,
    {
        let mut a = false;
        let mut t2: usize = 0;
        while t2 < n
            invariant
                v@ == s,
                v@.len() == n,
                touch@.len() == n,
                j2 < n,
                t2 <= n,
                forall|k: int|
                    0 <= k < n ==> (touch@[k] <==> (s[k].shape != shape && exists|i: int|
                        0 <= i < s.len() && (#[trigger] s[i]).shape == shape
                            && crate::geometry::spec_connects(s[i], s[k]))),
                a <==> exists|k: int|
                    0 <= k < t2 && #[trigger] touch@[k] && s[k].shape == s[j2 as int].shape,
            decreases n - t2,
        {
            if touch[t2] && v[t2].shape == v[j2].shape {
                a = true;
            }
            t2 += 1;
        }
        proof {
            if a {
                let k = choose|k: int|
                    0 <= k < n && #[trigger] touch@[k] && s[k].shape == s[j2 as int].shape;
                assert(spec_absorbed_shape(s, shape, s[j2 as int].shape));
            }
            if spec_absorbed_shape(s, shape, s[j2 as int].shape) {
                let (wi, wj) = choose|wi: int, wj: int|
                    0 <= wi < s.len() && 0 <= wj < s.len() && (#[trigger] s[wi]).shape == shape
                        && (#[trigger] s[wj]).shape == s[j2 as int].shape
                        && crate::geometry::spec_connects(s[wi], s[wj]);
                assert(touch@[wj]);
            }
        }
        absorbed.push(a);
        if a {
            any = true;
        }
        j2 += 1;
    }
    let mut i: usize = 0;
    while i < n
        invariant
            v@.len() == n,
            absorbed@.len() == n,
            i <= n,
            forall|k: int|
                0 <= k < n ==> (absorbed@[k] <==> spec_absorbed_shape(s, shape, s[k].shape)),
            forall|k: int| i <= k < n ==> v@[k] == s[k],
            forall|k: int|
                0 <= k < i ==> v@[k] == (if spec_absorbed_shape(s, shape, s[k].shape) {
                    Object { shape, ..s[k] }
                } else {
                    s[k]
                }),
        decreases n - i,
    {
        if absorbed[i] {
            let o = v[i];
            v.set(i, Object { shape, ..o });
        }
        i += 1;
    }
    proof {
        assert(v@ =~= spec_merged(s, shape));
    }
    any
}

/// Decides [`spec_shape_complete`].
fn shape_all_complete(v: &Vec<Object>, shape: i32) -> (r: bool)
    ensures
        r == spec_shape_complete(v@, shape),
{
    let mut i: usize = 0;
    while i < v.len()
        invariant
            i <= v.len(),
            forall|k: int|
                0 <= k < i && (#[trigger] v@[k]).shape == shape
                    ==> crate::shapes::spec_object_complete(v@, v@[k]),
        decreases v.len() - i,
    {
        let o = v[i];
        if o.shape == shape && !crate::shapes::object_complete(v, &o) {
            return false;
        }
        i += 1;
    }
    true
}

/// Decides [`spec_shape_has_door`].
fn shape_has_door(v: &Vec<Object>, shape: i32) -> (r: bool)
    ensures
        r == spec_shape_has_door(v@, shape),
{
    let mut i: usize = 0;
    while i < v.len()
        invariant
            i <= v.len(),
            forall|k: int|
                0 <= k < i ==> !((#[trigger] v@[k]).shape == shape && v@[k].kind == Kind::Door),
        decreases v.len() - i,
    {
        let o = v[i];
        if o.shape == shape && crate::geometry::kind_eq(o.kind, Kind::Door) {
            return true;
        }
        i += 1;
    }
    false
}

/// Decides [`spec_fully_special_door`].
fn is_fully_special_door(o: &Object) -> (r: bool)
    ensures
        r == spec_fully_special_door(*o),
{
    crate::geometry::kind_eq(o.kind, Kind::Door) && (o.connectors & 0xF0) != 0 && (o.connectors
        & 0x0F) == 0
}

/// Remove the satisfied doors of `shape`.
fn delete_doors(v: &mut Vec<Object>, shape: i32)
    ensures
        final(v)@ == spec_door_deleted(old(v)@, shape),
{
    let mut r: Vec<Object> = Vec::new();
    let mut i: usize = 0;
    let ghost pred = |o: Object| !(o.shape == shape && spec_fully_special_door(o));
    while i < v.len()
        invariant
            *v == *old(v),
            i <= v.len(),
            r@ == v@.take(i as int).filter(|o: Object|
                !(o.shape == shape && spec_fully_special_door(o))),
        decreases v.len() - i,
    {
        let o = v[i];
        proof {
            reveal_with_fuel(Seq::filter, 2);
            assert(v@.take(i as int + 1).drop_last() =~= v@.take(i as int));
            assert(v@.take(i as int + 1).last() == o);
        }
        if !(o.shape == shape && is_fully_special_door(&o)) {
            r.push(o);
        }
        i += 1;
    }
    proof {
        assert(v@.take(v@.len() as int) =~= v@);
    }
    *v = r;
}

/// Demote the remaining doors of `shape` in place: clear their special
/// ends, reset their kind.
fn demote_doors(v: &mut Vec<Object>, shape: i32)
    ensures
        final(v)@ == spec_door_demoted(old(v)@, shape),
{
    let n = v.len();
    let mut i: usize = 0;
    while i < n
        invariant
            v@.len() == n,
            old(v)@.len() == n,
            i <= n,
            forall|k: int| i <= k < n ==> v@[k] == old(v)@[k],
            forall|k: int|
                0 <= k < i ==> v@[k] == (if old(v)@[k].shape == shape && old(v)@[k].kind
                    == Kind::Door {
                    Object {
                        connectors: old(v)@[k].connectors & 0x0F,
                        kind: Kind::Plain,
                        ..old(v)@[k]
                    }
                } else {
                    old(v)@[k]
                }),
        decreases n - i,
    {
        let o = v[i];
        if o.shape == shape && crate::geometry::kind_eq(o.kind, Kind::Door) {
            v.set(i, Object { connectors: o.connectors & 0x0F, kind: Kind::Plain, ..o });
        }
        i += 1;
    }
    proof {
        assert(v@ =~= spec_door_demoted(old(v)@, shape));
    }
}


/// How many segments carry group id `shape`.
pub open spec fn count_shape(s: Seq<Object>, shape: i32) -> int
    decreases s.len(),
{
    if s.len() == 0 {
        0
    } else {
        count_shape(s.drop_last(), shape) + if s.last().shape == shape {
            1int
        } else {
            0int
        }
    }
}

proof fn lemma_count_shape_bounds(s: Seq<Object>, shape: i32)
    ensures
        0 <= count_shape(s, shape) <= s.len(),
    decreases s.len(),
{
    if s.len() > 0 {
        lemma_count_shape_bounds(s.drop_last(), shape);
    }
}

proof fn lemma_count_shape_update(s: Seq<Object>, shape: i32, i: int, o: Object)
    requires
        0 <= i < s.len(),
    ensures
        count_shape(s.update(i, o), shape) == count_shape(s, shape) - (if s[i].shape == shape {
            1int
        } else {
            0int
        }) + (if o.shape == shape {
            1int
        } else {
            0int
        }),
    decreases s.len(),
{
    let t = s.update(i, o);
    if i == s.len() - 1 {
        assert(t.drop_last() =~= s.drop_last());
    } else {
        assert(t.drop_last() =~= s.drop_last().update(i, o));
        lemma_count_shape_update(s.drop_last(), shape, i, o);
    }
}

proof fn lemma_count_shape_at_least_one(s: Seq<Object>, shape: i32, i: int)
    requires
        0 <= i < s.len(),
        s[i].shape == shape,
    ensures
        count_shape(s, shape) >= 1,
    decreases s.len(),
{
    lemma_count_shape_bounds(s.drop_last(), shape);
    if i < s.len() - 1 {
        lemma_count_shape_at_least_one(s.drop_last(), shape, i);
    }
}

/// The first member of `shape`, in id order.
fn find_first_member(v: &Vec<Object>, shape: i32) -> (r: Option<usize>)
    ensures
        match r {
            Some(k) => k < v@.len() && v@[k as int].shape == shape,
            Option::None => forall|k: int|
                0 <= k < v@.len() ==> (#[trigger] v@[k]).shape != shape,
        },
{
    let mut i: usize = 0;
    while i < v.len()
        invariant
            i <= v.len(),
            forall|k: int| 0 <= k < i ==> (#[trigger] v@[k]).shape != shape,
        decreases v.len() - i,
    {
        if v[i].shape == shape {
            return Some(i);
        }
        i += 1;
    }
    Option::None
}

/// Give every connected component of the members of `shape` a fresh group
/// id, one component at a time; the rest of the collection is untouched.
#[verifier::loop_isolation(false)]
#[verifier::rlimit(100)]
fn repartition(v: &mut Vec<Object>, shape: i32, next: &mut i32)
    requires
        shape < *old(next),
        forall|i: int| 0 <= i < old(v)@.len() ==> (#[trigger] old(v)@[i]).shape < *old(next),
        *old(next) + old(v)@.len() <= i32::MAX,
    ensures
        spec_repartitioned(old(v)@, shape, final(v)@),
        *old(next) <= *final(next) <= *old(next) + old(v)@.len(),
        forall|i: int| 0 <= i < final(v)@.len() ==> (#[trigger] final(v)@[i]).shape < *final(next),
{
    let n = v.len();
    let ghost dem = v@;
    let ghost mask = spec_member_mask(dem, shape);
    let ghost next0 = *next as int;
    let mut maskv: Vec<bool> = Vec::new();
    let mut b: usize = 0;
    while b < n
        invariant
            v@ == dem,
            *next as int == next0,
            b <= n,
            maskv@.len() == b,
            forall|k: int| 0 <= k < b ==> maskv@[k] == mask[k],
        decreases n - b,
    {
        maskv.push(v[b].shape == shape);
        b += 1;
    }
    proof {
        assert(maskv@ =~= mask);
        lemma_count_shape_bounds(dem, shape);
    }
    let mut cursor_opt = find_first_member(v, shape);
    while cursor_opt.is_some()
        invariant
            match cursor_opt {
                Some(k) => k < v@.len() && v@[k as int].shape == shape,
                Option::None => forall|k: int|
                    0 <= k < v@.len() ==> (#[trigger] v@[k]).shape != shape,
            },
            v@.len() == n,
            *next as int >= next0,
            *next as int + count_shape(v@, shape) <= next0 + n,
            forall|i: int| 0 <= i < n ==> eq_except_shape(#[trigger] v@[i], dem[i]),
            forall|i: int|
                0 <= i < n && (#[trigger] dem[i]).shape != shape ==> v@[i].shape == dem[i].shape,
            forall|i: int|
                0 <= i < n && (#[trigger] dem[i]).shape == shape ==> (v@[i].shape == shape || (
                next0 <= v@[i].shape < *next as int)),
            forall|i: int, j: int|
                0 <= i < n && 0 <= j < n && (#[trigger] dem[i]).shape == shape && v@[i].shape
                    != shape && mask[j] && crate::shapes::reachable(dem, mask, i, j) ==> (#[trigger] dem[j]).shape == shape && v@[j].shape != shape
                    && v@[j].shape == v@[i].shape,
            forall|i: int, j: int|
                0 <= i < n && 0 <= j < n && (#[trigger] dem[i]).shape == shape && (
                #[trigger] dem[j]).shape == shape && v@[i].shape != shape && v@[j].shape != shape
                    && v@[i].shape == v@[j].shape ==> crate::shapes::reachable(dem, mask, i, j),
        decreases count_shape(v@, shape),
    {
        let idx = cursor_opt.unwrap();
        proof {
            assert(dem[idx as int].shape == shape);
            lemma_count_shape_at_least_one(v@, shape, idx as int);
        }
        let ghost pre = v@;
        let ghost pren = *next as int;
        let vis = crate::shapes::component(v, &maskv, idx);
        proof {
            assert forall|j: int|
                0 <= j < n implies (crate::shapes::reachable(pre, mask, idx as int, j)
                == crate::shapes::reachable(dem, mask, idx as int, j)) by {
                if crate::shapes::reachable(pre, mask, idx as int, j) {
                    crate::shapes::lemma_reachable_same_geometry(pre, dem, mask, idx as int, j);
                }
                if crate::shapes::reachable(dem, mask, idx as int, j) {
                    crate::shapes::lemma_reachable_same_geometry(dem, pre, mask, idx as int, j);
                }
            }
            assert forall|t: int| 0 <= t < n && vis@[t] implies pre[t].shape == shape by {
                assert(mask[t] && crate::shapes::reachable(dem, mask, idx as int, t));
                if pre[t].shape != shape {
                    crate::shapes::lemma_reachable_sym(dem, mask, idx as int, t);
                    assert(crate::shapes::reachable(dem, mask, t, idx as int));
                    assert(pre[idx as int].shape != shape);
                }
            }
            crate::shapes::lemma_reachable_refl(dem, mask, idx as int);
            assert(vis@[idx as int]);
        }
        let f = *next;
        *next = *next + 1;
        let mut k: usize = 0;
        while k < n
            invariant
                v@.len() == n,
                k <= n,
                forall|t: int| k <= t < n ==> v@[t] == pre[t],
                forall|t: int|
                    0 <= t < k ==> v@[t] == (if vis@[t] {
                        Object { shape: f, ..pre[t] }
                    } else {
                        pre[t]
                    }),
                count_shape(v@, shape) <= count_shape(pre, shape),
                k as int > idx as int ==> count_shape(v@, shape) <= count_shape(pre, shape) - 1,
            decreases n - k,
        {
            if vis[k] {
                let o = v[k];
                proof {
                    lemma_count_shape_update(v@, shape, k as int, Object { shape: f, ..o });
                }
                v.set(k, Object { shape: f, ..o });
            } else {
                proof {
                    assert(v@.update(k as int, v@[k as int]) =~= v@);
                }
            }
            k += 1;
        }
        proof {
            lemma_repartition_step(dem, shape, next0, pre, pren, f, vis@, idx as int, v@);
            lemma_count_shape_bounds(v@, shape);
        }
        cursor_opt = find_first_member(v, shape);
    }
    proof {
        let fv = v@;
        assert forall|i: int, j: int|
            0 <= i < n && 0 <= j < n && (#[trigger] dem[i]).shape == shape && (
            #[trigger] dem[j]).shape == shape implies (fv[i].shape == fv[j].shape
            <==> crate::shapes::reachable(dem, mask, i, j)) by {
            assert(fv[i].shape != shape && fv[j].shape != shape);
        }
        assert forall|i: int, j: int|
            0 <= i < n && 0 <= j < dem.len() && (#[trigger] dem[i]).shape == shape implies fv[i].shape
            != (#[trigger] dem[j]).shape by {
            assert(next0 <= fv[i].shape);
            assert(dem[j].shape < next0);
        }
        assert(spec_repartitioned(dem, shape, fv));
        lemma_count_shape_bounds(v@, shape);
    }
}


/// One re-partitioning pass keeps the loop's bookkeeping: the component
/// just painted is closed and uniformly colored, painted components carry
/// distinct ids exactly along connectivity.
#[verifier::rlimit(100)]
proof fn lemma_repartition_step(
    dem: Seq<Object>,
    shape: i32,
    next0: int,
    pre: Seq<Object>,
    pren: int,
    f: i32,
    vis: Seq<bool>,
    idx: int,
    cur: Seq<Object>,
)
    requires
        pre.len() == dem.len(),
        cur.len() == dem.len(),
        vis.len() == dem.len(),
        0 <= idx < dem.len(),
        shape < next0 <= pren,
        f as int == pren,
        pre[idx].shape == shape,
        dem[idx].shape == shape,
        forall|t: int|
            0 <= t < dem.len() ==> (#[trigger] vis[t] <==> (spec_member_mask(dem, shape)[t]
                && crate::shapes::reachable(dem, spec_member_mask(dem, shape), idx, t))),
        forall|t: int| 0 <= t < dem.len() && #[trigger] vis[t] ==> pre[t].shape == shape,
        forall|t: int|
            0 <= t < dem.len() ==> #[trigger] cur[t] == (if vis[t] {
                Object { shape: f, ..pre[t] }
            } else {
                pre[t]
            }),
        forall|i: int|
            0 <= i < dem.len() && (#[trigger] dem[i]).shape == shape ==> (pre[i].shape == shape
                || (next0 <= pre[i].shape < pren)),
        forall|i: int, j: int|
            0 <= i < dem.len() && 0 <= j < dem.len() && (#[trigger] dem[i]).shape == shape
                && pre[i].shape != shape && spec_member_mask(dem, shape)[j]
                && crate::shapes::reachable(dem, spec_member_mask(dem, shape), i, j) ==> (
            #[trigger] dem[j]).shape == shape && pre[j].shape != shape && pre[j].shape
                == pre[i].shape,
        forall|i: int, j: int|
            0 <= i < dem.len() && 0 <= j < dem.len() && (#[trigger] dem[i]).shape == shape && (
            #[trigger] dem[j]).shape == shape && pre[i].shape != shape && pre[j].shape != shape
                && pre[i].shape == pre[j].shape ==> crate::shapes::reachable(
                dem,
                spec_member_mask(dem, shape),
                i,
                j,
            ),
    ensures
        forall|i: int, j: int|
            0 <= i < dem.len() && 0 <= j < dem.len() && (#[trigger] dem[i]).shape == shape
                && cur[i].shape != shape && spec_member_mask(dem, shape)[j]
                && crate::shapes::reachable(dem, spec_member_mask(dem, shape), i, j) ==> (
            #[trigger] dem[j]).shape == shape && cur[j].shape != shape && cur[j].shape
                == cur[i].shape,
        forall|i: int, j: int|
            0 <= i < dem.len() && 0 <= j < dem.len() && (#[trigger] dem[i]).shape == shape && (
            #[trigger] dem[j]).shape == shape && cur[i].shape != shape && cur[j].shape != shape
                && cur[i].shape == cur[j].shape ==> crate::shapes::reachable(
                dem,
                spec_member_mask(dem, shape),
                i,
                j,
            ),
{
    let n = dem.len() as int;
    let mask = spec_member_mask(dem, shape);
    assert forall|i: int, j: int|
        0 <= i < n && 0 <= j < n && (#[trigger] dem[i]).shape == shape && cur[i].shape != shape
            && mask[j] && crate::shapes::reachable(dem, mask, i, j) implies (#[trigger] dem[j]).shape == shape && cur[j].shape != shape && cur[j].shape
        == cur[i].shape by {
        if vis[i] {
            crate::shapes::lemma_reachable_sym(dem, mask, idx, i);
            crate::shapes::lemma_reachable_trans(dem, mask, idx, i, j);
            assert(vis[j]);
        } else {
            assert(cur[i] == pre[i] && pre[i].shape != shape);
            assert(pre[j].shape != shape && pre[j].shape == pre[i].shape);
            if vis[j] {
                crate::shapes::lemma_reachable_sym(dem, mask, i, j);
                crate::shapes::lemma_reachable_trans(dem, mask, idx, j, i);
                assert(vis[i]);
            }
            assert(cur[j] == pre[j]);
        }
    }
    assert forall|i: int, j: int|
        0 <= i < n && 0 <= j < n && (#[trigger] dem[i]).shape == shape && (#[trigger] dem[j]).shape
            == shape && cur[i].shape != shape && cur[j].shape != shape && cur[i].shape
            == cur[j].shape implies crate::shapes::reachable(dem, mask, i, j) by {
        if vis[i] && vis[j] {
            crate::shapes::lemma_reachable_sym(dem, mask, idx, i);
            crate::shapes::lemma_reachable_trans(dem, mask, i, idx, j);
        } else if vis[i] && !vis[j] {
            assert(cur[i].shape == f && cur[j] == pre[j]);
            if pre[j].shape == shape {
                assert(cur[j].shape == shape);
                assert(false);
            } else {
                assert(next0 <= pre[j].shape < pren);
                assert(false);
            }
        } else if !vis[i] && vis[j] {
            assert(cur[j].shape == f && cur[i] == pre[i]);
            if pre[i].shape == shape {
                assert(vis[i]);
                assert(false);
            } else {
                assert(next0 <= pre[i].shape < pren);
                assert(false);
            }
        } else {
            assert(cur[i] == pre[i] && cur[j] == pre[j]);
            if pre[i].shape == shape {
                assert(vis[i]);
                assert(false);
            }
            if pre[j].shape == shape {
                assert(vis[j]);
                assert(false);
            }
        }
    }
}


/// The index of the segment with the given id, in a collection ordered by
/// id.
fn find_by_id(v: &Vec<Object>, id: i32) -> (r: Option<usize>)
    ensures
        match r {
            Some(k) => k < v@.len() && v@[k as int].id == id,
            Option::None => forall|k: int| 0 <= k < v@.len() ==> (#[trigger] v@[k]).id != id,
        },
{
    let mut i: usize = 0;
    while i < v.len()
        invariant
            i <= v.len(),
            forall|k: int| 0 <= k < i ==> (#[trigger] v@[k]).id != id,
        decreases v.len() - i,
    {
        if v[i].id == id {
            return Some(i);
        }
        i += 1;
    }
    Option::None
}

/// The report of a door opening, cell by cell over the old footprint.
fn build_door_report(fp: &Vec<Object>, f: &Vec<Object>) -> (out: Vec<Object>)
    requires
        forall|k: int|
            0 <= k < fp@.len() && !spec_fully_special_door(#[trigger] fp@[k]) ==> exists|j: int|
                0 <= j < f@.len() && (#[trigger] f@[j]).id == fp@[k].id,
    ensures
        spec_door_report(fp@, f@, out@),
{
    let mut out: Vec<Object> = Vec::new();
    let mut k: usize = 0;
    while k < fp.len()
        invariant
            k <= fp@.len(),
            forall|t: int|
                0 <= t < fp@.len() && !spec_fully_special_door(#[trigger] fp@[t]) ==> exists|j: int|
                    0 <= j < f@.len() && (#[trigger] f@[j]).id == fp@[t].id,
            out@.len() == k,
            forall|t: int|
                0 <= t < k ==> if spec_fully_special_door(#[trigger] fp@[t]) {
                    out@[t] == (Object {
                        id: fp@[t].id,
                        shape: 0,
                        color: Option::None,
                        connectors: 0,
                        kind: Kind::Removed,
                        pos: fp@[t].pos,
                    })
                } else {
                    exists|j: int|
                        0 <= j < f@.len() && (#[trigger] f@[j]).id == fp@[t].id && out@[t]
                            == spec_with_color(f@[j], Some(Color::DarkGrey))
                },
        decreases fp.len() - k,
    {
        let o = fp[k];
        if is_fully_special_door(&o) {
            out.push(
                Object {
                    id: o.id,
                    shape: 0,
                    color: Option::None,
                    connectors: 0,
                    kind: Kind::Removed,
                    pos: o.pos,
                },
            );
        } else {
            let live = match find_by_id(f, o.id) {
                Some(j) => f[j],
                Option::None => {
                    proof {
                        assert(false);
                    }
                    o
                },
            };
            out.push(Object { color: Some(Color::DarkGrey), ..live });
        }
        k += 1;
    }
    out
}

/// Where the selection lands after a door opening.
#[verifier::loop_isolation(false)]
fn door_selection(fp: &Vec<Object>, f: &Vec<Object>, shape: i32, there: (u16, u16)) -> (r: Option<
    i32,
>)
    requires
        forall|a: int, b: int| 0 <= a < b < fp@.len() ==> fp@[a].pos != fp@[b].pos,
        forall|a: int, b: int| 0 <= a < b < f@.len() ==> f@[a].id < f@[b].id,
    ensures
        r == spec_door_selection(fp@, f@, shape, there),
{
    let mut k: usize = 0;
    while k < fp.len()
        invariant
            k <= fp@.len(),
            forall|t: int| 0 <= t < k ==> (#[trigger] fp@[t]).pos != there,
        decreases fp.len() - k,
    {
        let o = fp[k];
        if o.pos.0 == there.0 && o.pos.1 == there.1 {
            proof {
                assert(exists|t: int| 0 <= t < fp@.len() && (#[trigger] fp@[t]).pos == there)
                    by {
                    assert(fp@[k as int].pos == there && k < fp@.len());
                }
                let c = choose|t: int| 0 <= t < fp@.len() && (#[trigger] fp@[t]).pos == there;
                assert(fp@[k as int].pos == there);
                if c != k as int {
                    assert(fp@[c].pos == fp@[k as int].pos);
                    assert(false);
                }
            }
            if is_fully_special_door(&o) {
                return Option::None;
            }
            match find_by_id(f, o.id) {
                Some(j) => {
                    proof {
                        assert(exists|t: int|
                            0 <= t < f@.len() && (#[trigger] f@[t]).id == fp@[k as int].id) by {
                            assert(f@[j as int].id == fp@[k as int].id && j < f@.len());
                        }
                        let cj = choose|t: int|
                            0 <= t < f@.len() && (#[trigger] f@[t]).id == fp@[k as int].id;
                        assert(f@[j as int].id == fp@[k as int].id);
                        lemma_id_unique(f@, cj, j as int);
                    }
                    return Some(f[j].shape);
                },
                Option::None => {
                    return Option::None;
                },
            }
        }
        k += 1;
    }
    Some(shape)
}

impl State {
    /// Slide the whole of group `shape` by the step from `here` to `there`:
    /// the transactional heart of a turn.
    ///
    /// A move that cannot commit — the group is absent, a member would
    /// leave the board or land on another group's cell, or a machine
    /// counter is exhausted — returns `None` and changes nothing.  A
    /// committed move snapshots the old collection onto the undo stack
    /// (capped, oldest first), clears redo, translates the members, merges
    /// in every group now touching them, and, when the merged group is
    /// complete and holds a door, removes the satisfied doors, demotes the
    /// rest, and re-partitions the remainder into freshly numbered
    /// connected groups.  The result reports the members before the move,
    /// the cells afterwards, and where the selection lands.
    pub fn move_shape(
        &mut self,
        shape: i32,
        here: (u16, u16),
        there: (u16, u16),
        bounds: (u16, u16),
    ) -> (r: Option<(Vec<Object>, Vec<Object>, Option<i32>)>)
        requires
            old(self).wf(),
        ensures
            final(self).wf(),
            ({
                let m = old(self).model();
                let f = final(self).model();
                let dx = there.0 - here.0;
                let dy = there.1 - here.1;
                if !spec_move_valid(m, shape, dx as int, dy as int, bounds) {
                    r is None && f == m
                } else {
                    &&& r is Some
                    &&& f.cursor == m.cursor
                    &&& f.selected == m.selected
                    &&& spec_move_commit(
                        m,
                        f,
                        shape,
                        dx as int,
                        dy as int,
                        there,
                        (r->Some_0).0@,
                        (r->Some_0).1@,
                        (r->Some_0).2,
                    )
                }
            }),
    {
        let ghost m = self.model();
        let dx = there.0 as i32 - here.0 as i32;
        let dy = there.1 as i32 - here.1 as i32;
        let here_shape = members_of(&self.objects, shape);
        if here_shape.len() == 0 {
            proof {
                assert(!spec_move_valid(m, shape, dx as int, dy as int, bounds));
            }
            return Option::None;
        }
        if !shape_move_valid(&self.objects, shape, dx, dy, bounds) {
            proof {
                assert(!spec_move_valid(m, shape, dx as int, dy as int, bounds));
            }
            return Option::None;
        }
        let turn = self.current_turn();
        if turn == i32::MAX {
            proof {
                assert(!spec_move_valid(m, shape, dx as int, dy as int, bounds));
            }
            return Option::None;
        }
        if self.objects.len() > (i32::MAX - self.next_shape_id) as usize {
            proof {
                assert(m.next_shape_id + m.objects.len() > i32::MAX);
                assert(!spec_move_valid(m, shape, dx as int, dy as int, bounds));
            }
            return Option::None;
        }
        proof {
            assert(spec_move_valid(m, shape, dx as int, dy as int, bounds));
        }
        // history: snapshot, cap, clear redo
        let snap = clone_objects(&self.objects);
        self.undo.push(Turn { turn, objects: snap });
        proof {
            assert(self.model().undo =~= m.undo.push((turn, m.objects)));
            assert(turn >= 0);
            assert forall|k: int| 0 <= k < self.model().undo.len() implies 0 <= (
            #[trigger] self.model().undo[k]).0 by {
                if k < m.undo.len() {
                    assert(self.model().undo[k] == m.undo[k]);
                }
            }
        }
        self.truncate_undo(turn);
        self.redo = Vec::new();
        let ghost after_hist = self.model();
        proof {
            assert(after_hist.undo == spec_drop_old(
                m.undo.push((spec_current_turn(m) as i32, m.objects)),
                spec_current_turn(m) - m.undo_cap,
            ));
            assert(after_hist.redo =~= Seq::<(i32, Seq<Object>)>::empty());
        }
        // move
        translate_shape(&mut self.objects, shape, dx, dy);
        let ghost t = self.objects@;
        proof {
            lemma_translate_wf(m.objects, shape, dx as int, dy as int, bounds);
        }
        // merge
        let any = merge_into(&mut self.objects, shape);
        let ghost g = self.objects@;
        proof {
            assert forall|i: int| 0 <= i < g.len() implies eq_except_shape(
                #[trigger] g[i],
                t[i],
            ) by {
                assert(g[i] == spec_merged(t, shape)[i]);
            }
            assert(objs_wf(g)) by {
                assert(forall|i: int|
                    0 <= i < g.len() ==> ((#[trigger] g[i]).wf() && g[i].color is None));
            }
            assert(shape < m.next_shape_id) by {
                let e = m.objects.filter(|o: Object| o.shape == shape)[0];
                assert(m.objects.filter(|o: Object| o.shape == shape).contains(e));
                m.objects.lemma_filter_contains_rev(|o: Object| o.shape == shape, e);
                let src = choose|w: int| 0 <= w < m.objects.len() && m.objects[w] == e;
                assert(m.objects[src].shape < m.next_shape_id);
                assert(e.shape == shape) by {
                    m.objects.lemma_filter_pred(|o: Object| o.shape == shape, 0);
                }
            }
            assert(objs_bounded(g, m.next_object_id, m.next_shape_id)) by {
                assert forall|i: int| 0 <= i < g.len() implies (#[trigger] g[i]).id
                    < m.next_object_id && g[i].shape < m.next_shape_id by {
                    assert(g[i] == spec_merged(t, shape)[i]);
                    assert(t[i].shape < m.next_shape_id);
                }
            }
        }
        if any {
            let complete = shape_all_complete(&self.objects, shape);
            let door = shape_has_door(&self.objects, shape);
            if complete && door {
                let footprint = members_of(&self.objects, shape);
                delete_doors(&mut self.objects, shape);
                let ghost del = self.objects@;
                proof {
                    lemma_filter_objs_wf(g, |o: Object| !(o.shape == shape
                        && spec_fully_special_door(o)));
                    assert forall|i: int| 0 <= i < del.len() implies (#[trigger] del[i]).id
                        < m.next_object_id && del[i].shape < m.next_shape_id by {
                        assert(del.contains(del[i]));
                        g.lemma_filter_contains_rev(|o: Object| !(o.shape == shape
                            && spec_fully_special_door(o)), del[i]);
                        let src = choose|w: int| 0 <= w < g.len() && g[w] == del[i];
                    }
                }
                demote_doors(&mut self.objects, shape);
                let ghost dem = self.objects@;
                proof {
                    assert forall|i: int| 0 <= i < dem.len() implies (#[trigger] dem[i]).wf()
                        && dem[i].color is None && dem[i].id < m.next_object_id && dem[i].shape
                        < m.next_shape_id by {
                        assert(dem[i] == spec_door_demoted(del, shape)[i]);
                        lemma_low_nibble_wf(del[i].connectors);
                    }
                    assert(objs_wf(dem)) by {
                        assert(forall|a: int, b: int|
                            0 <= a < b < dem.len() ==> dem[a].id == del[a].id && dem[b].id
                                == del[b].id && dem[a].pos == del[a].pos && dem[b].pos
                                == del[b].pos);
                    }
                }
                repartition(&mut self.objects, shape, &mut self.next_shape_id);
                let ghost fin = self.objects@;
                proof {
                    assert(objs_wf(fin)) by {
                        assert(forall|i: int|
                            0 <= i < fin.len() ==> eq_except_shape(#[trigger] fin[i], dem[i]));
                        assert(forall|i: int|
                            0 <= i < fin.len() ==> ((#[trigger] fin[i]).wf() && fin[i].color
                                is None));
                        assert(forall|a: int, b: int|
                            0 <= a < b < fin.len() ==> fin[a].id == dem[a].id && fin[b].id
                                == dem[b].id && fin[a].pos == dem[a].pos && fin[b].pos
                                == dem[b].pos);
                    }
                }
                proof {
                    assert forall|k: int|
                        0 <= k < footprint@.len() && !spec_fully_special_door(
                            #[trigger] footprint@[k],
                        ) implies exists|j: int|
                        0 <= j < fin.len() && (#[trigger] fin[j]).id == footprint@[k].id by {
                        let fpk = footprint@[k];
                        assert(footprint@.contains(fpk));
                        g.lemma_filter_contains_rev(|o: Object| o.shape == shape, fpk);
                        let gi = choose|w: int| 0 <= w < g.len() && g[w] == fpk;
                        g.lemma_filter_contains(|o: Object| !(o.shape == shape
                            && spec_fully_special_door(o)), gi);
                        assert(del.contains(fpk));
                        let di = choose|w: int| 0 <= w < del.len() && del[w] == fpk;
                        assert(dem[di].id == fpk.id);
                        assert(fin[di].id == fpk.id);
                    }
                    lemma_filter_objs_wf(g, |o: Object| o.shape == shape);
                }
                let there_shape = build_door_report(&footprint, &self.objects);
                let sel = door_selection(&footprint, &self.objects, shape, there);
                proof {
                    lemma_move_wrapup(m, self.model(), after_hist);
                }
                return Some((here_shape, there_shape, sel));
            }
        }
        let there_shape = self.objects_by_shape_with_color(shape, Some(Color::White));
        proof {
            lemma_move_wrapup(m, self.model(), after_hist);
        }
        Some((here_shape, there_shape, Some(shape)))
    }

    /// Evict undo entries older than the cap below the newest turn.
    fn truncate_undo(&mut self, newest: i32)
        requires
            newest < i32::MAX,
            forall|k: int|
                0 <= k < old(self).model().undo.len() ==> 0 <= (#[trigger] old(
                    self,
                ).model().undo[k]).0,
        ensures
            final(self).model() == (StateModel {
                undo: spec_drop_old(old(self).model().undo, newest - old(self).model().undo_cap),
                ..old(self).model()
            }),
    {
        let cap_i64: i64 = if self.undo_cap > i32::MAX as usize {
            i32::MAX as i64
        } else {
            self.undo_cap as i64
        };
        let ghost th = newest as int - self.undo_cap as int;
        proof {
            assert forall|k: int| 0 <= k < self.undo@.len() implies 0 <= (
            #[trigger] self.undo@[k]).turn by {
                assert(old(self).model().undo[k] == (
                    self.undo@[k].turn,
                    self.undo@[k].objects@,
                ));
            }
        }
        while self.undo.len() > 0 && (self.undo[0].turn as i64) <= (newest as i64) - cap_i64
            invariant
                self.board_size == old(self).board_size,
                self.cursor_pos == old(self).cursor_pos,
                self.selected_shape == old(self).selected_shape,
                self.level_path == old(self).level_path,
                self.next_object_id == old(self).next_object_id,
                self.next_shape_id == old(self).next_shape_id,
                self.undo_cap == old(self).undo_cap,
                self.objects@ == old(self).objects@,
                self.redo@ == old(self).redo@,
                cap_i64 == if old(self).undo_cap > i32::MAX as usize {
                    i32::MAX as i64
                } else {
                    old(self).undo_cap as i64
                },
                th == newest as int - old(self).undo_cap as int,
                newest < i32::MAX,
                forall|k: int| 0 <= k < self.undo@.len() ==> 0 <= (#[trigger] self.undo@[k]).turn,
                spec_drop_old(old(self).model().undo, th) == spec_drop_old(self.model().undo, th),
            decreases self.undo.len(),
        {
            let ghost prev_mu = self.model().undo;
            let ghost prev_uv = self.undo@;
            proof {
                assert(prev_mu[0] == (self.undo@[0].turn, self.undo@[0].objects@));
                assert(prev_mu.first().0 <= th);
            }
            self.undo.remove(0);
            proof {
                assert forall|k: int| 0 <= k < self.undo@.len() implies 0 <= (
                #[trigger] self.undo@[k]).turn by {
                    assert(self.undo@[k] == prev_uv[k + 1]);
                }
            }
            proof {
                assert(self.model().undo =~= prev_mu.drop_first());
                assert(spec_drop_old(prev_mu, th) == spec_drop_old(prev_mu.drop_first(), th));
            }
        }
        proof {
            if self.undo.len() > 0 {
                assert(self.model().undo[0] == (self.undo@[0].turn, self.undo@[0].objects@));
                assert(self.model().undo.first().0 > th);
            }
            assert(spec_drop_old(self.model().undo, th) == self.model().undo);
            assert(self.model() =~= (StateModel {
                undo: spec_drop_old(old(self).model().undo, newest - old(self).model().undo_cap),
                ..old(self).model()
            }));
        }
    }
}

/// A committed translation keeps the collection well formed.
proof fn lemma_translate_wf(s: Seq<Object>, shape: i32, dx: int, dy: int, bounds: (u16, u16))
    requires
        objs_wf(s),
        spec_move_ok(s, shape, dx, dy, bounds),
    ensures
        objs_wf(spec_translate_all(s, shape, dx, dy)),
{
    let t = spec_translate_all(s, shape, dx, dy);
    assert forall|i: int| 0 <= i < t.len() implies (#[trigger] t[i]).wf() && t[i].color
        is None by {
        assert(s[i].wf());
        if s[i].shape == shape {
            assert(t[i] == spec_translated(s[i], dx, dy));
        } else {
            assert(t[i] == s[i]);
        }
    }
    assert forall|i: int, j: int| 0 <= i < j < t.len() implies t[i].id < t[j].id && t[i].pos
        != t[j].pos by {
        assert(s[i].wf() && s[j].wf());
        if s[i].shape == shape && s[j].shape != shape {
            assert(!(s[j].pos.0 == s[i].pos.0 + dx && s[j].pos.1 == s[i].pos.1 + dy));
        }
        if s[j].shape == shape && s[i].shape != shape {
            assert(!(s[i].pos.0 == s[j].pos.0 + dx && s[i].pos.1 == s[j].pos.1 + dy));
        }
    }
}

/// After a committed move the allocation counters still bound everything.
#[verifier::rlimit(100)]
proof fn lemma_move_wrapup(m: StateModel, f: StateModel, after_hist: StateModel)
    requires
        wf_model(m),
        objs_wf(f.objects),
        objs_bounded(f.objects, f.next_object_id, f.next_shape_id),
        f.next_object_id == m.next_object_id,
        f.next_shape_id >= m.next_shape_id,
        f.undo == after_hist.undo,
        f.redo.len() == 0,
        f.undo_cap == m.undo_cap,
        after_hist.undo == spec_drop_old(
            m.undo.push((spec_current_turn(m) as i32, m.objects)),
            spec_current_turn(m) - m.undo_cap,
        ),
        0 <= spec_current_turn(m) < i32::MAX,
    ensures
        wf_model(f),
{
    let pushed = m.undo.push((spec_current_turn(m) as i32, m.objects));
    let th = spec_current_turn(m) - m.undo_cap;
    lemma_drop_old_suffix(pushed, th);
    let off = pushed.len() - f.undo.len();
    assert(f.undo == pushed.skip(off as int));
    assert forall|k: int| 0 <= k < pushed.len() implies objs_wf((#[trigger] pushed[k]).1)
        && objs_bounded(pushed[k].1, f.next_object_id, f.next_shape_id) && 0 <= pushed[k].0
        < i32::MAX by {
        if k < m.undo.len() {
            assert(pushed[k] == m.undo[k]);
            assert(objs_bounded(m.undo[k].1, m.next_object_id, m.next_shape_id));
            assert forall|i: int|
                0 <= i < m.undo[k].1.len() implies (#[trigger] m.undo[k].1[i]).id
                < f.next_object_id && m.undo[k].1[i].shape < f.next_shape_id by {}
        } else {
            assert(pushed[k].1 == m.objects);
            assert forall|i: int|
                0 <= i < m.objects.len() implies (#[trigger] m.objects[i]).id
                < f.next_object_id && m.objects[i].shape < f.next_shape_id by {}
        }
    }
    assert forall|k1: int, k2: int| 0 <= k1 < k2 < pushed.len() implies pushed[k1].0
        < pushed[k2].0 by {
        if k2 < m.undo.len() {
        } else {
            if k1 < m.undo.len() {
                assert(pushed[k1] == m.undo[k1]);
                assert(m.undo[k1].0 <= m.undo.last().0) by {
                    if k1 < m.undo.len() - 1 {
                        assert(m.undo[k1].0 < m.undo[m.undo.len() - 1].0);
                    }
                }
            }
        }
    }
    assert forall|k: int| 0 <= k < f.undo.len() implies objs_wf((#[trigger] f.undo[k]).1)
        && objs_bounded(f.undo[k].1, f.next_object_id, f.next_shape_id) && 0 <= f.undo[k].0
        < i32::MAX by {
        assert(f.undo[k] == pushed[k + off]);
    }
    assert forall|k1: int, k2: int| 0 <= k1 < k2 < f.undo.len() implies f.undo[k1].0
        < f.undo[k2].0 by {
        assert(f.undo[k1] == pushed[k1 + off] && f.undo[k2] == pushed[k2 + off]);
    }
}


/// Dropping old entries takes a suffix of the stack.
proof fn lemma_drop_old_suffix(u: Seq<(i32, Seq<Object>)>, th: int)
    ensures
        spec_drop_old(u, th).len() <= u.len(),
        spec_drop_old(u, th) == u.skip(u.len() - spec_drop_old(u, th).len()),
    decreases u.len(),
{
    if u.len() > 0 && u.first().0 <= th {
        lemma_drop_old_suffix(u.drop_first(), th);
        let r = spec_drop_old(u, th);
        assert(r == spec_drop_old(u.drop_first(), th));
        assert(u.drop_first().skip(u.drop_first().len() - r.len()) =~= u.skip(
            u.len() - r.len(),
        ));
    } else {
        assert(spec_drop_old(u, th) == u);
        assert(u.skip(0) =~= u);
    }
}

impl State {
    /// One player step.  Without a selection the cursor simply moves,
    /// saturating at the board edges.  With a selection, a cardinal step
    /// tries to slide the whole selected shape: if the slide commits, the
    /// cursor follows, the selection tracks the (possibly split or merged)
    /// shape, and the move is announced; if it cannot commit — or the step
    /// is diagonal — nothing changes at all.
    pub fn move_cursor(&mut self, direction: Direction) -> (out: Vec<StateControlPayload>)
        requires
            old(self).wf(),
        ensures
            final(self).wf(),
            ({
                let m = old(self).model();
                let f = final(self).model();
                match spec_move_cursor_to(m.cursor, direction, m.board, m.selected is Some) {
                    Option::None => f == m && out@.len() == 0,
                    Some(there) => {
                        match m.selected {
                            Option::None => {
                                &&& f == (StateModel { cursor: there, ..m })
                                &&& out@ =~= seq![
                                    StateControlPayload::SetCursorPosition(there),
                                ]
                            },
                            Some(shape) => {
                                let dx = there.0 - m.cursor.0;
                                let dy = there.1 - m.cursor.1;
                                if !spec_move_valid(m, shape, dx as int, dy as int, m.board) {
                                    f == m && out@.len() == 0
                                } else {
                                    &&& f.cursor == there
                                    &&& out@[0] is MoveShape
                                    &&& spec_move_commit(
                                        m,
                                        f,
                                        shape,
                                        dx as int,
                                        dy as int,
                                        there,
                                        out@[0]->MoveShape_0@,
                                        out@[0]->MoveShape_1@,
                                        f.selected,
                                    )
                                    &&& out@[1] == StateControlPayload::SetCursorPosition(there)
                                    &&& if f.selected != m.selected && f.selected is Some {
                                        &&& out@.len() == 4
                                        &&& out@[2] is PrintObjects
                                        &&& out@[2]->PrintObjects_0@ == spec_shape_colored(
                                            f.objects,
                                            f.selected->0,
                                            Some(Color::White),
                                        )
                                        &&& out@[3] == spec_turn_counter_payload(f)
                                    } else {
                                        &&& out@.len() == 3
                                        &&& out@[2] == spec_turn_counter_payload(f)
                                    }
                                }
                            },
                        }
                    },
                }
            }),
    {
        let mut out: Vec<StateControlPayload> = Vec::new();
        let here = self.cursor_pos;
        let selected = self.selected_shape;
        let step = State::move_cursor_to(&here, direction, self.board_size, selected.is_some());
        match step {
            Option::None => {
                proof {
                    assert(self.model() =~= old(self).model());
                }
                out
            },
            Some(there) => {
                match selected {
                    Option::None => {
                        self.cursor_pos = there;
                        out.push(StateControlPayload::SetCursorPosition(there));
                        proof {
                            assert(self.model() =~= (StateModel {
                                cursor: there,
                                ..old(self).model()
                            }));
                        }
                        out
                    },
                    Some(shape) => {
                        match self.move_shape(shape, here, there, self.board_size) {
                            Option::None => {
                                proof {
                                    assert(self.model() =~= old(self).model());
                                }
                                out
                            },
                            Some((here_shape, there_shape, new_selected)) => {
                                out.push(
                                    StateControlPayload::MoveShape(here_shape, there_shape),
                                );
                                self.cursor_pos = there;
                                out.push(StateControlPayload::SetCursorPosition(there));
                                let changed = match (selected, new_selected) {
                                    (Some(a), Some(b)) => a != b,
                                    (Some(_), Option::None) => true,
                                    (Option::None, Some(_)) => true,
                                    (Option::None, Option::None) => false,
                                };
                                if changed {
                                    self.selected_shape = new_selected;
                                    if let Some(sh) = new_selected {
                                        out.push(
                                            StateControlPayload::PrintObjects(
                                                self.objects_by_shape_with_color(
                                                    sh,
                                                    Some(Color::White),
                                                ),
                                            ),
                                        );
                                    }
                                }
                                out.push(self.print_turn_counter());
                                out
                            },
                        }
                    },
                }
            },
        }
    }
}


/// Some parsed cell's connector mask is outside the legal form.
pub open spec fn has_bad_mask(cells: Seq<Object>) -> bool {
    exists|i: int| 0 <= i < cells.len() && !(#[trigger] cells[i]).wf()
}

/// Two parsed cells claim one grid cell.
pub open spec fn has_dup_pos(cells: Seq<Object>) -> bool {
    exists|i: int, j: int|
        0 <= i < j < cells.len() && (#[trigger] cells[i]).pos == (#[trigger] cells[j]).pos
}

/// Some parsed segment's declared ends match no other cell at all: such a
/// level cannot be grouped into shapes.
pub open spec fn spec_has_isolated(cells: Seq<Object>) -> bool {
    exists|i: int|
        0 <= i < cells.len() && (#[trigger] cells[i]).connectors != 0 && (forall|j: int|
            0 <= j < cells.len() ==> !crate::geometry::spec_connects(cells[i], #[trigger] cells[j]))
}

/// The allocation counters have room for a level of `n` cells.
pub open spec fn load_room(m: StateModel, n: int) -> bool {
    m.next_object_id + n <= i32::MAX && m.next_shape_id + 2 * n + 1 <= i32::MAX
}

/// The same cell content, before ids and group ids are assigned.
pub open spec fn eq_cell(a: Object, c: Object) -> bool {
    a.connectors == c.connectors && a.kind == c.kind && a.pos == c.pos && a.color is None
}

/// Which segments of a collection are not walls.
pub open spec fn spec_nonwall_mask(s: Seq<Object>) -> Seq<bool> {
    Seq::new(s.len(), |i: int| s[i].connectors != 0)
}

/// Everything [`State::load_level`] promises of a level it accepts.
pub open spec fn spec_level_loaded(m: StateModel, f: StateModel, cells: Seq<Object>) -> bool {
    let ws = cells.filter(|c: Object| c.connectors == 0);
    let ps = cells.filter(|c: Object| c.connectors != 0);
    &&& f.board == m.board
    &&& f.cursor == m.cursor
    &&& f.level_path == m.level_path
    &&& f.undo_cap == m.undo_cap
    &&& f.selected is None
    &&& f.undo.len() == 0
    &&& f.redo.len() == 0
    &&& f.objects.len() == ws.len() + ps.len()
    &&& forall|k: int| 0 <= k < ws.len() ==> eq_cell(#[trigger] f.objects[k], ws[k])
    &&& forall|k: int|
        ws.len() <= k < f.objects.len() ==> eq_cell(#[trigger] f.objects[k], ps[k - ws.len()])
    &&& forall|a: int, b: int|
        0 <= a < f.objects.len() && 0 <= b < f.objects.len() && a != b && ((
        #[trigger] f.objects[a]).connectors == 0 || (#[trigger] f.objects[b]).connectors == 0)
            ==> f.objects[a].shape != f.objects[b].shape
    &&& forall|a: int, b: int|
        0 <= a < f.objects.len() && 0 <= b < f.objects.len() && (
        #[trigger] f.objects[a]).connectors != 0 && (#[trigger] f.objects[b]).connectors != 0
            ==> (f.objects[a].shape == f.objects[b].shape <==> crate::shapes::reachable(
            f.objects,
            spec_nonwall_mask(f.objects),
            a,
            b,
        ))
}

/// Filtering keeps cells on distinct grid cells distinct.
proof fn lemma_filter_pos_distinct(s: Seq<Object>, pred: spec_fn(Object) -> bool)
    requires
        !has_dup_pos(s),
    ensures
        !has_dup_pos(s.filter(pred)),
        forall|k: int|
            0 <= k < s.filter(pred).len() ==> exists|w: int|
                0 <= w < s.len() && #[trigger] s.filter(pred)[k] == s[w],
    decreases s.len(),
{
    reveal_with_fuel(Seq::filter, 2);
    if s.len() > 0 {
        let b = s.drop_last();
        assert(!has_dup_pos(b)) by {
            assert(forall|i: int| 0 <= i < b.len() ==> b[i] == (#[trigger] s[i]));
        }
        lemma_filter_pos_distinct(b, pred);
        assert forall|k: int|
            0 <= k < s.filter(pred).len() implies exists|w: int|
            0 <= w < s.len() && #[trigger] s.filter(pred)[k] == s[w] by {
            if k < b.filter(pred).len() {
                let w0 = choose|w: int| 0 <= w < b.len() && #[trigger] b.filter(pred)[k] == b[w];
                assert(s.filter(pred)[k] == s[w0]);
            } else {
                assert(s.filter(pred)[k] == s[s.len() - 1]);
            }
        }
        if pred(s.last()) {
            let r = b.filter(pred).push(s.last());
            assert(s.filter(pred) == r);
            assert forall|i: int, j: int| 0 <= i < j < r.len() implies r[i].pos != r[j].pos by {
                if j < r.len() - 1 {
                    assert(b.filter(pred)[i].pos != b.filter(pred)[j].pos);
                } else {
                    let w0 = choose|w: int|
                        0 <= w < b.len() && #[trigger] b.filter(pred)[i] == b[w];
                    assert(s[w0].pos != s[s.len() - 1].pos);
                }
            }
        }
    }
}

impl State {
    /// Parse level text into the engine, replacing whatever was loaded:
    /// rows are lines, columns count from 1, a space is an empty cell, and
    /// every other glyph maps through the fixed table to a segment.  Walls
    /// enter as singleton shapes; the remaining segments are grouped into
    /// maximal connected shapes.  The whole load is rejected — leaving the
    /// collection (and both history stacks) empty — exactly when a glyph is
    /// unknown, a cell lies outside the legal extent or is claimed twice,
    /// some segment's ends match no other cell, or a counter lacks room.
    #[verifier::loop_isolation(false)]
    #[verifier::rlimit(100)]
    pub fn load_level(&mut self, level_string: &str) -> (r: Result<(), ParseLevelError>)
        requires
            old(self).wf(),
        ensures
            final(self).wf(),
            ({
                let m = old(self).model();
                let f = final(self).model();
                let raw = crate::level::spec_raw_cells(level_string@);
                let cells = crate::level::cell_objects(raw);
                let bad = crate::level::has_bad_glyph(raw) || crate::level::has_oob_cell(raw)
                    || has_bad_mask(cells) || has_dup_pos(cells) || spec_has_isolated(cells)
                    || !load_room(m, cells.len() as int);
                match r {
                    Ok(u) => !bad && spec_level_loaded(m, f, cells),
                    Err(e) => bad && f == (StateModel {
                        objects: Seq::empty(),
                        undo: Seq::empty(),
                        redo: Seq::empty(),
                        selected: Option::None,
                        next_object_id: m.next_object_id,
                        next_shape_id: m.next_shape_id,
                        ..m
                    }),
                }
            }),
    {
        let ghost m = self.model();
        self.objects = Vec::new();
        self.undo = Vec::new();
        self.redo = Vec::new();
        self.selected_shape = Option::None;
        let ghost wiped = self.model();
        proof {
            assert(wiped.objects =~= Seq::<Object>::empty());
            assert(wiped.undo =~= Seq::<(i32, Seq<Object>)>::empty());
            assert(wiped.redo =~= Seq::<(i32, Seq<Object>)>::empty());
            assert(wiped =~= (StateModel {
                objects: Seq::empty(),
                undo: Seq::empty(),
                redo: Seq::empty(),
                selected: Option::None,
                next_object_id: m.next_object_id,
                next_shape_id: m.next_shape_id,
                ..m
            }));
        }
        let cells = match crate::level::parse_cells(level_string) {
            Ok(cells) => cells,
            Err(e) => {
                return Err(e);
            },
        };
        let n = cells.len();
        // counter room
        if n as u64 > i32::MAX as u64 || (n as u64) > (i32::MAX as u64) - (
        self.next_object_id as u64) || 2 * (n as u64) + 1 > (i32::MAX as u64) - (
        self.next_shape_id as u64) {
            proof {
                assert(!load_room(m, cells@.len() as int));
            }
            return Err(ParseLevelError);
        }
        proof {
            assert(load_room(m, cells@.len() as int));
        }
        // well-formed masks
        let mut i: usize = 0;
        while i < n
            invariant
                self.model() == wiped,
                n == cells@.len(),
                i <= n,
                forall|k: int| 0 <= k < i ==> (#[trigger] cells@[k]).wf(),
            decreases n - i,
        {
            if !cells[i].check_wf() {
                return Err(ParseLevelError);
            }
            i += 1;
        }
        // distinct cells
        let mut a: usize = 0;
        while a < n
            invariant
                self.model() == wiped,
                n == cells@.len(),
                a <= n,
                forall|i2: int, j2: int|
                    0 <= i2 < j2 < n && i2 < a ==> (#[trigger] cells@[i2]).pos != (
                    #[trigger] cells@[j2]).pos,
            decreases n - a,
        {
            let mut b2: usize = a + 1;
            while b2 < n
                invariant
                    self.model() == wiped,
                    n == cells@.len(),
                    a < n,
                    a < b2,
                    b2 <= n,
                    forall|j2: int|
                        a < j2 < b2 ==> (#[trigger] cells@[j2]).pos != cells@[a as int].pos,
                decreases n - b2,
            {
                if cells[b2].pos.0 == cells[a].pos.0 && cells[b2].pos.1 == cells[a].pos.1 {
                    proof {
                        assert(cells@[a as int].pos == cells@[b2 as int].pos);
                        assert(has_dup_pos(cells@));
                    }
                    return Err(ParseLevelError);
                }
                b2 += 1;
            }
            a += 1;
        }
        // no isolated segment
        let mut i2: usize = 0;
        while i2 < n
            invariant
                self.model() == wiped,
                n == cells@.len(),
                i2 <= n,
                forall|k: int|
                    0 <= k < i2 && (#[trigger] cells@[k]).connectors != 0 ==> exists|j: int|
                        0 <= j < n && crate::geometry::spec_connects(
                            cells@[k],
                            #[trigger] cells@[j],
                        ),
            decreases n - i2,
        {
            if cells[i2].connectors != 0 {
                let mut j2: usize = 0;
                let mut found = false;
                while j2 < n
                    invariant
                        self.model() == wiped,
                        n == cells@.len(),
                        i2 < n,
                        j2 <= n,
                        found ==> exists|j: int|
                            0 <= j < n && crate::geometry::spec_connects(
                                cells@[i2 as int],
                                #[trigger] cells@[j],
                            ),
                        !found ==> forall|j: int|
                            0 <= j < j2 ==> !crate::geometry::spec_connects(
                                cells@[i2 as int],
                                #[trigger] cells@[j],
                            ),
                    decreases n - j2,
                {
                    if crate::geometry::connects(&cells[i2], &cells[j2]) {
                        found = true;
                    }
                    j2 += 1;
                }
                if !found {
                    proof {
                        assert(spec_has_isolated(cells@));
                    }
                    return Err(ParseLevelError);
                }
            }
            i2 += 1;
        }
        proof {
            assert(!spec_has_isolated(cells@));
        }
        // build: walls first, each its own singleton shape
        let walls = members_by_wall(&cells, true);
        let pipes = members_by_wall(&cells, false);
        let ghost ws = cells@.filter(|c: Object| c.connectors == 0);
        let ghost ps = cells@.filter(|c: Object| c.connectors != 0);
        proof {
            lemma_filter_len_sum(cells@);
            lemma_filter_pos_distinct(cells@, |c: Object| c.connectors == 0);
            lemma_filter_pos_distinct(cells@, |c: Object| c.connectors != 0);
            crate::level::lemma_cell_objects_fields(
                crate::level::spec_raw_cells(level_string@),
            );
            assert forall|t: int| 0 <= t < ws.len() implies (#[trigger] ws[t]).wf() && ws[t].color
                is None && ws[t].connectors == 0 by {
                cells@.lemma_filter_pred(|c: Object| c.connectors == 0, t);
                assert(ws.contains(ws[t]));
                cells@.lemma_filter_contains_rev(|c: Object| c.connectors == 0, ws[t]);
            }
            assert forall|t: int| 0 <= t < ps.len() implies (#[trigger] ps[t]).wf() && ps[t].color
                is None && ps[t].connectors != 0 by {
                cells@.lemma_filter_pred(|c: Object| c.connectors != 0, t);
                assert(ps.contains(ps[t]));
                cells@.lemma_filter_contains_rev(|c: Object| c.connectors != 0, ps[t]);
            }
        }
        let mut objs: Vec<Object> = Vec::new();
        let mut k: usize = 0;
        while k < walls.len()
            invariant
                walls@ == ws,
                n == cells@.len(),
                ws.len() + ps.len() == n,
                forall|t: int| 0 <= t < ws.len() ==> (#[trigger] ws[t]).wf(),
                forall|t: int| 0 <= t < ws.len() ==> (#[trigger] ws[t]).color is None,
                forall|t: int| 0 <= t < ws.len() ==> (#[trigger] ws[t]).connectors == 0,
                k <= walls@.len(),
                objs@.len() == k,
                self.next_object_id as int == wiped.next_object_id + k,
                self.next_shape_id as int == wiped.next_shape_id + k,
                wiped.next_object_id + n <= i32::MAX,
                wiped.next_shape_id + 2 * n + 1 <= i32::MAX,
                self.objects@.len() == 0,
                self.undo@.len() == 0,
                self.redo@.len() == 0,
                self.selected_shape is None,
                self.board_size == wiped.board,
                self.cursor_pos == wiped.cursor,
                self.model().level_path == wiped.level_path,
                self.undo_cap as int == wiped.undo_cap,
                forall|t: int| 0 <= t < k ==> eq_cell(#[trigger] objs@[t], ws[t]),
                forall|t: int|
                    0 <= t < k ==> (#[trigger] objs@[t]).id == wiped.next_object_id + t
                        && objs@[t].shape == wiped.next_shape_id + t,
            decreases walls@.len() - k,
        {
            let o = walls[k];
            objs.push(
                Object {
                    id: self.next_object_id,
                    shape: self.next_shape_id,
                    color: Option::None,
                    connectors: o.connectors,
                    kind: o.kind,
                    pos: o.pos,
                },
            );
            self.next_object_id = self.next_object_id + 1;
            self.next_shape_id = self.next_shape_id + 1;
            k += 1;
        }
        // one temporary group for every pipe segment
        let temp_shape = self.next_shape_id;
        self.next_shape_id = self.next_shape_id + 1;
        let mut k2: usize = 0;
        while k2 < pipes.len()
            invariant
                walls@ == ws,
                pipes@ == ps,
                n == cells@.len(),
                ws.len() + ps.len() == n,
                forall|t: int| 0 <= t < ps.len() ==> (#[trigger] ps[t]).wf(),
                forall|t: int| 0 <= t < ps.len() ==> (#[trigger] ps[t]).color is None,
                forall|t: int| 0 <= t < ps.len() ==> (#[trigger] ps[t]).connectors != 0,
                k2 <= pipes@.len(),
                objs@.len() == ws.len() + k2,
                temp_shape as int == wiped.next_shape_id + ws.len(),
                self.next_object_id as int == wiped.next_object_id + ws.len() + k2,
                self.next_shape_id as int == wiped.next_shape_id + ws.len() + 1,
                wiped.next_object_id + n <= i32::MAX,
                wiped.next_shape_id + 2 * n + 1 <= i32::MAX,
                self.objects@.len() == 0,
                self.undo@.len() == 0,
                self.redo@.len() == 0,
                self.selected_shape is None,
                self.board_size == wiped.board,
                self.cursor_pos == wiped.cursor,
                self.model().level_path == wiped.level_path,
                self.undo_cap as int == wiped.undo_cap,
                forall|t: int| 0 <= t < ws.len() ==> eq_cell(#[trigger] objs@[t], ws[t]),
                forall|t: int|
                    0 <= t < ws.len() ==> (#[trigger] objs@[t]).id == wiped.next_object_id + t
                        && objs@[t].shape == wiped.next_shape_id + t,
                forall|t: int|
                    ws.len() <= t < ws.len() + k2 ==> eq_cell(
                        #[trigger] objs@[t],
                        ps[t - ws.len()],
                    ),
                forall|t: int|
                    ws.len() <= t < ws.len() + k2 ==> (#[trigger] objs@[t]).id
                        == wiped.next_object_id + t && objs@[t].shape == temp_shape as int,
            decreases pipes@.len() - k2,
        {
            let o = pipes[k2];
            objs.push(
                Object {
                    id: self.next_object_id,
                    shape: temp_shape,
                    color: Option::None,
                    connectors: o.connectors,
                    kind: o.kind,
                    pos: o.pos,
                },
            );
            self.next_object_id = self.next_object_id + 1;
            k2 += 1;
        }
        proof {
            lemma_loaded_objs_wf(cells@, ws, ps, objs@, wiped, temp_shape as int);
        }
        self.objects = objs;
        let ghost dem = self.objects@;
        repartition(&mut self.objects, temp_shape, &mut self.next_shape_id);
        proof {
            lemma_level_grouping(
                m,
                wiped,
                dem,
                self.model(),
                cells@,
                ws,
                ps,
                temp_shape as int,
            );
        }
        Ok(())
    }
}

/// The parsed cells that are (or are not) walls, in text order.
fn members_by_wall(v: &Vec<Object>, wall: bool) -> (r: Vec<Object>)
    ensures
        wall ==> r@ == v@.filter(|c: Object| c.connectors == 0),
        !wall ==> r@ == v@.filter(|c: Object| c.connectors != 0),
{
    let mut r: Vec<Object> = Vec::new();
    let mut i: usize = 0;
    while i < v.len()
        invariant
            i <= v.len(),
            wall ==> r@ == v@.take(i as int).filter(|c: Object| c.connectors == 0),
            !wall ==> r@ == v@.take(i as int).filter(|c: Object| c.connectors != 0),
        decreases v.len() - i,
    {
        let o = v[i];
        proof {
            reveal_with_fuel(Seq::filter, 2);
            assert(v@.take(i as int + 1).drop_last() =~= v@.take(i as int));
            assert(v@.take(i as int + 1).last() == o);
        }
        if (wall && o.connectors == 0) || (!wall && o.connectors != 0) {
            r.push(o);
        }
        i += 1;
    }
    proof {
        assert(v@.take(v@.len() as int) =~= v@);
    }
    r
}


/// A collection splits into its walls and its pipe segments.
proof fn lemma_filter_len_sum(s: Seq<Object>)
    ensures
        s.filter(|c: Object| c.connectors == 0).len() + s.filter(
            |c: Object| c.connectors != 0,
        ).len() == s.len(),
    decreases s.len(),
{
    reveal_with_fuel(Seq::filter, 2);
    if s.len() > 0 {
        let b = s.drop_last();
        lemma_filter_len_sum(b);
    }
}

/// The freshly built level collection is well formed and bounded.
#[verifier::rlimit(100)]
proof fn lemma_loaded_objs_wf(
    cells: Seq<Object>,
    ws: Seq<Object>,
    ps: Seq<Object>,
    objs: Seq<Object>,
    wiped: StateModel,
    temp_shape: int,
)
    requires
        ws == cells.filter(|c: Object| c.connectors == 0),
        ps == cells.filter(|c: Object| c.connectors != 0),
        !has_dup_pos(cells),
        objs.len() == ws.len() + ps.len(),
        forall|t: int| 0 <= t < ws.len() ==> (#[trigger] ws[t]).wf() && ws[t].color is None,
        forall|t: int| 0 <= t < ps.len() ==> (#[trigger] ps[t]).wf() && ps[t].color is None,
        forall|t: int| 0 <= t < ws.len() ==> eq_cell(#[trigger] objs[t], ws[t]),
        forall|t: int|
            ws.len() <= t < objs.len() ==> eq_cell(#[trigger] objs[t], ps[t - ws.len()]),
        forall|t: int|
            0 <= t < ws.len() ==> (#[trigger] objs[t]).id == wiped.next_object_id + t
                && objs[t].shape == wiped.next_shape_id + t,
        forall|t: int|
            ws.len() <= t < objs.len() ==> (#[trigger] objs[t]).id == wiped.next_object_id + t
                && objs[t].shape == temp_shape,
        temp_shape == wiped.next_shape_id + ws.len(),
        wiped.next_object_id >= 1,
        wiped.next_shape_id >= 1,
        wiped.next_object_id + cells.len() <= i32::MAX,
        wiped.next_shape_id + 2 * cells.len() + 1 <= i32::MAX,
    ensures
        objs_wf(objs),
        forall|i: int| 0 <= i < objs.len() ==> (#[trigger] objs[i]).shape <= temp_shape,
        forall|i: int|
            0 <= i < objs.len() ==> (#[trigger] objs[i]).id < wiped.next_object_id + cells.len(),
{
    lemma_filter_pos_distinct(cells, |c: Object| c.connectors == 0);
    lemma_filter_pos_distinct(cells, |c: Object| c.connectors != 0);
    lemma_filter_len_sum(cells);
    assert forall|i: int, j: int| 0 <= i < j < objs.len() implies objs[i].id < objs[j].id by {
        assert(objs[i].id == wiped.next_object_id + i);
        assert(objs[j].id == wiped.next_object_id + j);
    }
    assert forall|i: int| 0 <= i < objs.len() implies (#[trigger] objs[i]).shape
        <= temp_shape && objs[i].id < wiped.next_object_id + cells.len() by {
        if i < ws.len() {
            assert(objs[i].shape == wiped.next_shape_id + i);
        } else {
            assert(objs[i].shape == temp_shape);
        }
        assert(objs[i].id == wiped.next_object_id + i);
    }
    assert forall|i: int, j: int| 0 <= i < j < objs.len() implies objs[i].pos != objs[j].pos by {
        if j < ws.len() {
            assert(objs[i].pos == ws[i].pos && objs[j].pos == ws[j].pos);
        } else if i >= ws.len() {
            assert(eq_cell(objs[i], ps[i - ws.len()]) && eq_cell(objs[j], ps[j - ws.len()]));
            cells.lemma_filter_pred(|c: Object| c.connectors != 0, i - ws.len());
            cells.lemma_filter_pred(|c: Object| c.connectors != 0, j - ws.len());
        } else {
            let wi = ws[i];
            let pj = ps[j - ws.len()];
            assert(objs[i].pos == wi.pos && objs[j].pos == pj.pos);
            assert(ws.contains(wi));
            cells.lemma_filter_contains_rev(|c: Object| c.connectors == 0, wi);
            assert(ps.contains(pj));
            cells.lemma_filter_contains_rev(|c: Object| c.connectors != 0, pj);
            let a = choose|a: int| 0 <= a < cells.len() && cells[a] == wi;
            let b = choose|b: int| 0 <= b < cells.len() && cells[b] == pj;
            cells.lemma_filter_pred(|c: Object| c.connectors == 0, i);
            cells.lemma_filter_pred(|c: Object| c.connectors != 0, j - ws.len());
            assert(cells[a].connectors == 0 && cells[b].connectors != 0);
            assert(a != b);
            if a < b || b < a {
                assert(cells[a].pos != cells[b].pos);
            }
        }
    }
    assert forall|i: int| 0 <= i < objs.len() implies (#[trigger] objs[i]).wf() && objs[i].color
        is None by {
        if i < ws.len() {
            assert(eq_cell(objs[i], ws[i]) && ws[i].wf());
        } else {
            assert(eq_cell(objs[i], ps[i - ws.len()]) && ps[i - ws.len()].wf());
        }
    }
}

/// After re-partitioning, the loaded level meets the load contract.
#[verifier::rlimit(100)]
proof fn lemma_level_grouping(
    m: StateModel,
    wiped: StateModel,
    dem: Seq<Object>,
    f: StateModel,
    cells: Seq<Object>,
    ws: Seq<Object>,
    ps: Seq<Object>,
    temp_shape: int,
)
    requires
        ws == cells.filter(|c: Object| c.connectors == 0),
        ps == cells.filter(|c: Object| c.connectors != 0),
        dem.len() == ws.len() + ps.len(),
        objs_wf(dem),
        forall|t: int| 0 <= t < ws.len() ==> eq_cell(#[trigger] dem[t], ws[t]),
        forall|t: int|
            ws.len() <= t < dem.len() ==> eq_cell(#[trigger] dem[t], ps[t - ws.len()]),
        forall|t: int| 0 <= t < ws.len() ==> (#[trigger] ws[t]).connectors == 0,
        forall|t: int| 0 <= t < ps.len() ==> (#[trigger] ps[t]).connectors != 0,
        forall|t: int|
            0 <= t < ws.len() ==> (#[trigger] dem[t]).shape == wiped.next_shape_id + t,
        forall|t: int|
            ws.len() <= t < dem.len() ==> (#[trigger] dem[t]).shape == temp_shape,
        temp_shape == wiped.next_shape_id + ws.len(),
        1 <= temp_shape <= i32::MAX,
        forall|i: int|
            0 <= i < dem.len() ==> (#[trigger] dem[i]).id < f.next_object_id,
        spec_repartitioned(dem, temp_shape as i32, f.objects),
        forall|i: int|
            0 <= i < f.objects.len() ==> (#[trigger] f.objects[i]).shape < f.next_shape_id,
        f.next_shape_id >= temp_shape + 1,
        f.next_object_id >= 1,
        wiped.next_shape_id >= 1,
        f.board == m.board,
        f.cursor == m.cursor,
        f.level_path == m.level_path,
        f.undo_cap == m.undo_cap,
        f.undo_cap >= 1,
        f.selected is None,
        f.undo.len() == 0,
        f.redo.len() == 0,
    ensures
        wf_model(f),
        spec_level_loaded(m, f, cells),
{
    let fo = f.objects;
    let mk = spec_member_mask(dem, temp_shape as i32);
    assert(mk =~= spec_nonwall_mask(dem)) by {
        assert forall|i: int| 0 <= i < dem.len() implies mk[i] == spec_nonwall_mask(dem)[i] by {
            if i < ws.len() {
                assert(eq_cell(dem[i], ws[i]) && ws[i].connectors == 0);
                assert(dem[i].shape == wiped.next_shape_id + i && dem[i].connectors == 0);
                assert(dem[i].shape != temp_shape);
            } else {
                assert(eq_cell(dem[i], ps[i - ws.len()]) && ps[i - ws.len()].connectors != 0);
                assert(dem[i].shape == temp_shape && dem[i].connectors != 0);
            }
        }
    }
    assert(spec_nonwall_mask(fo) =~= spec_nonwall_mask(dem)) by {
        assert(forall|i: int|
            0 <= i < fo.len() ==> eq_except_shape(#[trigger] fo[i], dem[i]));
    }
    assert(objs_wf(fo)) by {
        assert(forall|i: int|
            0 <= i < fo.len() ==> eq_except_shape(#[trigger] fo[i], dem[i]));
        assert forall|i: int| 0 <= i < fo.len() implies (#[trigger] fo[i]).wf() && fo[i].color
            is None by {
            assert(dem[i].wf() && dem[i].color is None);
        }
        assert(forall|i: int, j: int|
            0 <= i < j < fo.len() ==> fo[i].id == dem[i].id && fo[j].id == dem[j].id && fo[i].pos
                == dem[i].pos && fo[j].pos == dem[j].pos);
    }
    assert(wf_model(f)) by {
        assert(objs_bounded(fo, f.next_object_id, f.next_shape_id)) by {
            assert(forall|i: int|
                0 <= i < fo.len() ==> (#[trigger] fo[i]).id == dem[i].id);
        }
    }
    assert forall|k: int| 0 <= k < ws.len() implies eq_cell(#[trigger] fo[k], ws[k]) by {
        assert(eq_except_shape(fo[k], dem[k]) && eq_cell(dem[k], ws[k]));
    }
    assert forall|k: int|
        0 <= k < ps.len() implies eq_cell(#[trigger] fo[ws.len() + k], ps[k]) by {
        assert(eq_except_shape(fo[ws.len() + k], dem[ws.len() + k]) && eq_cell(
            dem[ws.len() + k],
            ps[k],
        ));
    }
    assert forall|a: int, b: int|
        0 <= a < fo.len() && 0 <= b < fo.len() && a != b && ((#[trigger] fo[a]).connectors == 0
            || (#[trigger] fo[b]).connectors == 0) implies fo[a].shape != fo[b].shape by {
        assert(eq_except_shape(fo[a], dem[a]) && eq_except_shape(fo[b], dem[b]));
        if fo[a].connectors == 0 {
            assert(dem[a].connectors == 0);
            if a >= ws.len() {
                assert(eq_cell(dem[a], ps[a - ws.len()]) && ps[a - ws.len()].connectors != 0);
            }
            assert(a < ws.len());
            assert(dem[a].shape == wiped.next_shape_id + a && dem[a].shape != temp_shape);
            assert(fo[a].shape == dem[a].shape);
            if fo[b].connectors == 0 {
                if b >= ws.len() {
                    assert(eq_cell(dem[b], ps[b - ws.len()]) && ps[b - ws.len()].connectors
                        != 0);
                }
                assert(b < ws.len());
                assert(dem[b].shape != temp_shape && fo[b].shape == dem[b].shape
                    == wiped.next_shape_id + b);
            } else {
                assert(dem[b].connectors != 0);
                if b < ws.len() {
                    assert(eq_cell(dem[b], ws[b]) && ws[b].connectors == 0);
                }
                assert(dem[b].shape == temp_shape);
                assert(fo[b].shape != dem[a].shape);
            }
        } else {
            assert(fo[b].connectors == 0 && dem[b].connectors == 0);
            if b >= ws.len() {
                assert(eq_cell(dem[b], ps[b - ws.len()]) && ps[b - ws.len()].connectors != 0);
            }
            assert(b < ws.len());
            assert(dem[b].shape != temp_shape && fo[b].shape == dem[b].shape
                == wiped.next_shape_id + b);
            assert(dem[a].connectors != 0);
            if a < ws.len() {
                assert(eq_cell(dem[a], ws[a]) && ws[a].connectors == 0);
            }
            assert(dem[a].shape == temp_shape);
            assert(fo[a].shape != dem[b].shape);
        }
    }
    assert forall|a: int, b: int|
        0 <= a < fo.len() && 0 <= b < fo.len() && (#[trigger] fo[a]).connectors != 0 && (
        #[trigger] fo[b]).connectors != 0 implies (fo[a].shape == fo[b].shape
        <==> crate::shapes::reachable(fo, spec_nonwall_mask(fo), a, b)) by {
        assert(dem[a].shape == temp_shape && dem[b].shape == temp_shape);
        assert(fo[a].shape == fo[b].shape <==> crate::shapes::reachable(dem, mk, a, b));
        if crate::shapes::reachable(dem, mk, a, b) {
            crate::shapes::lemma_reachable_same_geometry(dem, fo, mk, a, b);
        }
        if crate::shapes::reachable(fo, spec_nonwall_mask(fo), a, b) {
            crate::shapes::lemma_reachable_same_geometry(fo, dem, mk, a, b);
        }
    }
}


proof fn lemma_adjacent_turns_sorted(s: Seq<(i32, Seq<Object>)>, i: int, j: int, up: bool)
    requires
        up ==> forall|k: int| 0 <= k < s.len() - 1 ==> (#[trigger] s[k]).0 < s[k + 1].0,
        !up ==> forall|k: int| 0 <= k < s.len() - 1 ==> (#[trigger] s[k]).0 > s[k + 1].0,
        0 <= i < j < s.len(),
    ensures
        up ==> s[i].0 < s[j].0,
        !up ==> s[i].0 > s[j].0,
    decreases j - i,
{
    if j > i + 1 {
        lemma_adjacent_turns_sorted(s, i, j - 1, up);
    }
}

/// Decides [`objs_wf`] together with the id/shape bounds.
#[verifier::rlimit(100)]
fn check_collection(v: &Vec<Object>, noi: i32, nsi: i32) -> (r: bool)
    ensures
        r == (objs_wf(v@) && objs_bounded(v@, noi as int, nsi as int)),
{
    let n = v.len();
    let mut i: usize = 0;
    while i < n
        invariant
            n == v@.len(),
            i <= n,
            forall|k: int|
                0 <= k < i ==> (#[trigger] v@[k]).wf() && v@[k].color is None && v@[k].id
                    < noi as int && v@[k].shape < nsi as int,
            forall|a: int, b: int|
                0 <= a < b < i ==> (#[trigger] v@[a]).id < (#[trigger] v@[b]).id,
        decreases n - i,
    {
        let o = v[i];
        if !o.check_wf() || o.color().is_some() || o.id >= noi || o.shape >= nsi {
            return false;
        }
        if i > 0 {
            if v[i - 1].id >= o.id {
                proof {
                    assert(v@[i as int - 1].id >= v@[i as int].id);
                }
                return false;
            }
            proof {
                assert forall|a: int| 0 <= a < i implies (#[trigger] v@[a]).id
                    < v@[i as int].id by {
                    if a < i as int - 1 {
                        assert(v@[a].id < v@[i as int - 1].id);
                    }
                }
            }
        }
        i += 1;
    }
    let mut a: usize = 0;
    while a < n
        invariant
            n == v@.len(),
            a <= n,
            forall|i2: int, j2: int|
                0 <= i2 < j2 < n && i2 < a ==> (#[trigger] v@[i2]).pos != (#[trigger] v@[j2]).pos,
        decreases n - a,
    {
        let mut b: usize = a + 1;
        while b < n
            invariant
                n == v@.len(),
                a < n,
                a < b,
                b <= n,
                forall|j2: int| a < j2 < b ==> (#[trigger] v@[j2]).pos != v@[a as int].pos,
            decreases n - b,
        {
            if v[b].pos.0 == v[a].pos.0 && v[b].pos.1 == v[a].pos.1 {
                proof {
                    assert(v@[a as int].pos == v@[b as int].pos);
                }
                return false;
            }
            b += 1;
        }
        a += 1;
    }
    true
}

/// Decides whether a history stack is fit to install: well-formed bounded
/// snapshots, turn numbers in range, strictly ordered (rising for undo,
/// falling for redo).
fn check_stack(v: &Vec<Turn>, noi: i32, nsi: i32, rising: bool) -> (r: bool)
    ensures
        r == ({
            &&& forall|k: int|
                0 <= k < v@.len() ==> objs_wf((#[trigger] v@[k]).objects@) && objs_bounded(
                    v@[k].objects@,
                    noi as int,
                    nsi as int,
                )
            &&& (rising ==> forall|k: int|
                0 <= k < v@.len() ==> 0 <= (#[trigger] v@[k]).turn < i32::MAX)
            &&& (!rising ==> forall|k: int| 0 <= k < v@.len() ==> 1 <= (#[trigger] v@[k]).turn)
            &&& (rising ==> forall|k: int|
                0 <= k < v@.len() - 1 ==> (#[trigger] v@[k]).turn < v@[k + 1].turn)
            &&& (!rising ==> forall|k: int|
                0 <= k < v@.len() - 1 ==> (#[trigger] v@[k]).turn > v@[k + 1].turn)
        }),
{
    let n = v.len();
    let mut k: usize = 0;
    while k < n
        invariant
            n == v@.len(),
            k <= n,
            forall|t: int|
                0 <= t < k ==> objs_wf((#[trigger] v@[t]).objects@) && objs_bounded(
                    v@[t].objects@,
                    noi as int,
                    nsi as int,
                ),
            rising ==> forall|t: int| 0 <= t < k ==> 0 <= (#[trigger] v@[t]).turn < i32::MAX,
            !rising ==> forall|t: int| 0 <= t < k ==> 1 <= (#[trigger] v@[t]).turn,
            rising ==> forall|t: int|
                0 <= t < k - 1 ==> (#[trigger] v@[t]).turn < v@[t + 1].turn,
            !rising ==> forall|t: int|
                0 <= t < k - 1 ==> (#[trigger] v@[t]).turn > v@[t + 1].turn,
        decreases n - k,
    {
        if !check_collection(&v[k].objects, noi, nsi) {
            return false;
        }
        let t = v[k].turn;
        if rising && (t < 0 || t == i32::MAX) {
            return false;
        }
        if !rising && t < 1 {
            return false;
        }
        if k > 0 {
            let prev = v[k - 1].turn;
            if rising && prev >= t {
                return false;
            }
            if !rising && prev <= t {
                return false;
            }
        }
        k += 1;
    }
    true
}

impl State {
    /// The undo stack, oldest first, as snapshot copies.
    pub fn undo_history(&self) -> (r: Vec<Turn>)
        ensures
            turns_view(r@) == self.model().undo,
    {
        clone_turns(&self.undo)
    }

    /// The redo stack, largest turn first, as snapshot copies.
    pub fn redo_history(&self) -> (r: Vec<Turn>)
        ensures
            turns_view(r@) == self.model().redo,
    {
        clone_turns(&self.redo)
    }

    /// The two allocation counters, for a snapshot export.
    pub fn allocation_counters(&self) -> (r: (i32, i32))
        ensures
            r.0 as int == self.model().next_object_id,
            r.1 as int == self.model().next_shape_id,
    {
        (self.next_object_id, self.next_shape_id)
    }

    /// Install a saved snapshot: the full collection, both history stacks
    /// and the allocation counters, replacing the live state and clearing
    /// the selection.  Everything is validated first; a snapshot that would
    /// break the engine's invariant is refused with the live state intact.
    pub fn restore(
        &mut self,
        objects: Vec<Object>,
        undo: Vec<Turn>,
        redo: Vec<Turn>,
        counters: (i32, i32),
    ) -> (r: bool)
        requires
            old(self).wf(),
        ensures
            final(self).wf(),
            ({
                let m = old(self).model();
                let target = StateModel {
                    objects: objects@,
                    undo: turns_view(undo@),
                    redo: turns_view(redo@),
                    selected: Option::None,
                    next_object_id: counters.0 as int,
                    next_shape_id: counters.1 as int,
                    ..m
                };
                &&& r == wf_model(target)
                &&& (r ==> final(self).model() == target)
                &&& (!r ==> final(self).model() == m)
            }),
    {
        let ghost m = self.model();
        let ghost mu = turns_view(undo@);
        let ghost mr = turns_view(redo@);
        proof {
            assert(forall|k: int|
                0 <= k < undo@.len() ==> #[trigger] mu[k] == (undo@[k].turn, undo@[k].objects@));
            assert(forall|k: int|
                0 <= k < redo@.len() ==> #[trigger] mr[k] == (redo@[k].turn, redo@[k].objects@));
        }
        let (noi, nsi) = counters;
        if noi < 1 || nsi < 1 {
            return false;
        }
        if !check_collection(&objects, noi, nsi) {
            return false;
        }
        let ghost target = StateModel {
            objects: objects@,
            undo: mu,
            redo: mr,
            selected: Option::None,
            next_object_id: noi as int,
            next_shape_id: nsi as int,
            ..m
        };
        proof {
            lemma_stack_facts(undo@);
            lemma_stack_facts(redo@);
        }
        if !check_stack(&undo, noi, nsi, true) {
            proof {
                if wf_model(target) {
                    assert forall|k: int|
                        0 <= k < undo@.len() implies objs_wf((#[trigger] undo@[k]).objects@)
                        && objs_bounded(undo@[k].objects@, noi as int, nsi as int) && 0 <= undo@[
                        k].turn < i32::MAX by {
                        assert(mu[k] == (undo@[k].turn, undo@[k].objects@));
                        assert(objs_wf((#[trigger] target.undo[k]).1));
                        assert(objs_bounded(target.undo[k].1, noi as int, nsi as int));
                    }
                    assert forall|k: int|
                        0 <= k < undo@.len() - 1 implies (#[trigger] undo@[k]).turn < undo@[k
                        + 1].turn by {
                        assert(mu[k] == (undo@[k].turn, undo@[k].objects@));
                        assert(mu[k + 1] == (undo@[k + 1].turn, undo@[k + 1].objects@));
                        assert(target.undo[k].0 < target.undo[k + 1].0);
                    }
                    assert(false);
                }
            }
            return false;
        }
        if !check_stack(&redo, noi, nsi, false) {
            proof {
                if wf_model(target) {
                    assert forall|k: int|
                        0 <= k < redo@.len() implies objs_wf((#[trigger] redo@[k]).objects@)
                        && objs_bounded(redo@[k].objects@, noi as int, nsi as int) && 1 <= redo@[
                        k].turn by {
                        assert(mr[k] == (redo@[k].turn, redo@[k].objects@));
                        assert(objs_wf((#[trigger] target.redo[k]).1));
                        assert(objs_bounded(target.redo[k].1, noi as int, nsi as int));
                        assert(1 <= target.redo[k].0 <= i32::MAX);
                    }
                    assert forall|k: int|
                        0 <= k < redo@.len() - 1 implies (#[trigger] redo@[k]).turn > redo@[k
                        + 1].turn by {
                        assert(mr[k] == (redo@[k].turn, redo@[k].objects@));
                        assert(mr[k + 1] == (redo@[k + 1].turn, redo@[k + 1].objects@));
                        assert(target.redo[k].0 > target.redo[k + 1].0);
                    }
                    assert(false);
                }
            }
            return false;
        }
        if undo.len() > 0 && redo.len() > 0 {
            let ut = undo[undo.len() - 1].turn;
            let rt = redo[redo.len() - 1].turn;
            if (ut as i64) + 2 > rt as i64 {
                return false;
            }
        }
        proof {
            assert forall|t1: int, t2: int| 0 <= t1 < t2 < mu.len() implies mu[t1].0
                < mu[t2].0 by {
                lemma_adjacent_turns_sorted(mu, t1, t2, true);
            }
            assert forall|t1: int, t2: int| 0 <= t1 < t2 < mr.len() implies mr[t1].0
                > mr[t2].0 by {
                lemma_adjacent_turns_sorted(mr, t1, t2, false);
            }
        }
        self.objects = objects;
        self.undo = undo;
        self.redo = redo;
        self.selected_shape = Option::None;
        self.next_object_id = noi;
        self.next_shape_id = nsi;
        proof {
            assert(self.model() =~= (StateModel {
                objects: self.objects@,
                undo: mu,
                redo: mr,
                selected: Option::None,
                next_object_id: noi as int,
                next_shape_id: nsi as int,
                ..m
            }));
        }
        true
    }
}

/// Seen through the model mapping, a stack's turn order and snapshot facts
/// carry over word for word.
proof fn lemma_stack_facts(v: Seq<Turn>)
    ensures
        forall|k: int|
            0 <= k < v.len() ==> #[trigger] turns_view(v)[k] == (v[k].turn, v[k].objects@),
{
}

/// An element-wise copy of a history stack.
fn clone_turns(v: &Vec<Turn>) -> (r: Vec<Turn>)
    ensures
        turns_view(r@) == turns_view(v@),
{
    let mut r: Vec<Turn> = Vec::new();
    let mut i: usize = 0;
    while i < v.len()
        invariant
            i <= v@.len(),
            r@.len() == i,
            forall|k: int|
                0 <= k < i ==> (#[trigger] r@[k]).turn == v@[k].turn && r@[k].objects@
                    == v@[k].objects@,
        decreases v@.len() - i,
    {
        let t = Turn { turn: v[i].turn, objects: clone_objects(&v[i].objects) };
        r.push(t);
        i += 1;
    }
    proof {
        assert(turns_view(r@) =~= turns_view(v@));
    }
    r
}

} // verus!

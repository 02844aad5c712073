//! The order of the waypoints of a path, kept as a doubly linked list.
//!
//! The store holds one row per waypoint of the path.  A row names the
//! waypoint before it and the waypoint after it; the head of the list has no
//! predecessor and the tail no successor.  The order itself is stored
//! nowhere: it is what walking the links from the head yields.

use vstd::prelude::*;
use crate::waypoint::WaypointID;

verus! {

/// One row of the order table: a waypoint and its two neighbours.
#[derive(Clone, Copy, Debug, PartialEq, Eq, Structural)]
pub struct OrderEntry {
    pub wpt: WaypointID,
    pub prev: Option<WaypointID>,
    pub next: Option<WaypointID>,
}

/// Why an operation on the order of a path failed.
#[derive(Clone, Copy, Debug, PartialEq, Eq, Structural)]
pub enum OrderError {
    /// The rows do not link up to one list that holds each of them once.
    Malformed,
    /// The waypoint is already on the path.
    Duplicate,
    /// The waypoint is not on the path.
    NotFound,
}

/// The row that the `i`-th waypoint of `order` has in the store.
pub open spec fn entry_at(order: Seq<WaypointID>, i: int) -> OrderEntry {
    OrderEntry {
        wpt: order[i],
        prev: if i > 0 {
            Some(order[i - 1])
        } else {
            None
        },
        next: if i + 1 < order.len() {
            Some(order[i + 1])
        } else {
            None
        },
    }
}

/// The waypoints that the rows belong to, row by row.
pub open spec fn wpts_of(rows: Seq<OrderEntry>) -> Seq<WaypointID> {
    Seq::new(rows.len(), |j: int| rows[j].wpt)
}

/// `rows` is the linked form of `order`: rows and order hold the same
/// waypoints, each of them once, and every row names the neighbours that its
/// waypoint has in `order`.
#[verifier::opaque]
pub open spec fn represents(rows: Seq<OrderEntry>, order: Seq<WaypointID>) -> bool {
    &&& order.no_duplicates()
    &&& wpts_of(rows).no_duplicates()
    &&& rows.len() == order.len()
    &&& forall|j: int| 0 <= j < rows.len() ==> order.contains(#[trigger] rows[j].wpt)
    &&& forall|i: int| 0 <= i < order.len() ==> wpts_of(rows).contains(#[trigger] order[i])
    &&& forall|j: int, i: int|
        0 <= j < rows.len() && 0 <= i < order.len() && (#[trigger] rows[j]).wpt
            == #[trigger] order[i] ==> rows[j] == entry_at(order, i)
}

/// Index of the row of waypoint `id`.
fn find_row(rows: &Vec<OrderEntry>, id: WaypointID) -> (r: Option<usize>)
    ensures
        match r {
            Some(j) => {
                &&& j < rows.len()
                &&& rows[j as int].wpt == id
                &&& forall|e: int| 0 <= e < j ==> rows[e].wpt != id
            },
            None => !wpts_of(rows@).contains(id),
        },
{
    let mut j: usize = 0;
    while j < rows.len()
        invariant
            j <= rows.len(),
            forall|e: int| 0 <= e < j ==> rows[e].wpt != id,
        decreases rows.len() - j,
    {
        if rows[j].wpt == id {
            return Some(j);
        }
        j += 1;
    }
    None
}

/// Index of a row without predecessor.
fn find_head(rows: &Vec<OrderEntry>) -> (r: Option<usize>)
    ensures
        match r {
            Some(j) => j < rows.len() && rows[j as int].prev is None,
            None => forall|e: int| 0 <= e < rows.len() ==> rows[e].prev is Some,
        },
{
    let mut j: usize = 0;
    while j < rows.len()
        invariant
            j <= rows.len(),
            forall|e: int| 0 <= e < j ==> rows[e].prev is Some,
        decreases rows.len() - j,
    {
        if rows[j].prev.is_none() {
            return Some(j);
        }
        j += 1;
    }
    None
}

/// Index of a row without successor.
fn find_tail(rows: &Vec<OrderEntry>) -> (r: Option<usize>)
    ensures
        match r {
            Some(j) => j < rows.len() && rows[j as int].next is None,
            None => forall|e: int| 0 <= e < rows.len() ==> rows[e].next is Some,
        },
{
    let mut j: usize = 0;
    while j < rows.len()
        invariant
            j <= rows.len(),
            forall|e: int| 0 <= e < j ==> rows[e].next is Some,
        decreases rows.len() - j,
    {
        if rows[j].next.is_none() {
            return Some(j);
        }
        j += 1;
    }
    None
}

/// Tells whether `id` occurs in `ids`.
fn occurs(ids: &Vec<WaypointID>, id: WaypointID) -> (b: bool)
    ensures
        b == ids@.contains(id),
{
    let mut i: usize = 0;
    while i < ids.len()
        invariant
            i <= ids.len(),
            forall|e: int| 0 <= e < i ==> ids[e] != id,
        decreases ids.len() - i,
    {
        if ids[i] == id {
            return true;
        }
        i += 1;
    }
    false
}

/// What it takes for rows to be the linked form of an order.
pub proof fn lemma_represents_intro(rows: Seq<OrderEntry>, order: Seq<WaypointID>)
    requires
        order.no_duplicates(),
        wpts_of(rows).no_duplicates(),
        rows.len() == order.len(),
        forall|j: int| 0 <= j < rows.len() ==> order.contains(#[trigger] rows[j].wpt),
        forall|i: int| 0 <= i < order.len() ==> wpts_of(rows).contains(#[trigger] order[i]),
        forall|j: int, i: int|
            0 <= j < rows.len() && 0 <= i < order.len() && (#[trigger] rows[j]).wpt
                == #[trigger] order[i] ==> rows[j] == entry_at(order, i),
    ensures
        represents(rows, order),
{
    reveal(represents);
}

/// An order with a linked form holds no waypoint twice and has as many
/// waypoints as the form has rows.
pub proof fn lemma_represents_len(rows: Seq<OrderEntry>, order: Seq<WaypointID>)
    requires
        represents(rows, order),
    ensures
        order.no_duplicates(),
        rows.len() == order.len(),
{
    reveal(represents);
}

/// Two rows of a linked form belong to different waypoints.
pub proof fn lemma_rows_are_distinct(
    rows: Seq<OrderEntry>,
    order: Seq<WaypointID>,
    a: int,
    b: int,
)
    requires
        represents(rows, order),
        0 <= a < rows.len(),
        0 <= b < rows.len(),
        a != b,
    ensures
        rows[a].wpt != rows[b].wpt,
{
    reveal(represents);
    assert(wpts_of(rows)[a] != wpts_of(rows)[b]);
}

/// The row of a waypoint is the row that the order gives that waypoint.
pub proof fn lemma_row_is_entry(rows: Seq<OrderEntry>, order: Seq<WaypointID>, j: int, i: int)
    requires
        represents(rows, order),
        0 <= j < rows.len(),
        0 <= i < order.len(),
        rows[j].wpt == order[i],
    ensures
        rows[j] == entry_at(order, i),
{
    reveal(represents);
}

/// The row of a waypoint of `order` is the row that `order` gives it.
pub proof fn lemma_row_of(rows: Seq<OrderEntry>, order: Seq<WaypointID>, i: int) -> (j: int)
    requires
        represents(rows, order),
        0 <= i < order.len(),
    ensures
        0 <= j < rows.len(),
        rows[j] == entry_at(order, i),
{
    reveal(represents);
    assert(wpts_of(rows).contains(order[i]));
    let j = choose|j: int| 0 <= j < wpts_of(rows).len() && wpts_of(rows)[j] == order[i];
    assert(rows[j].wpt == order[i]);
    j
}

/// The waypoint of a row is on `order`, where `order` gives it that row.
pub proof fn lemma_entry_of(rows: Seq<OrderEntry>, order: Seq<WaypointID>, j: int) -> (i: int)
    requires
        represents(rows, order),
        0 <= j < rows.len(),
    ensures
        0 <= i < order.len(),
        rows[j] == entry_at(order, i),
{
    reveal(represents);
    assert(order.contains(rows[j].wpt));
    let i = choose|i: int| 0 <= i < order.len() && order[i] == rows[j].wpt;
    assert(rows[j].wpt == order[i]);
    i
}

/// Rows are the linked form of at most one order.
pub proof fn lemma_order_is_unique(rows: Seq<OrderEntry>, a: Seq<WaypointID>, b: Seq<WaypointID>)
    requires
        represents(rows, a),
        represents(rows, b),
    ensures
        a == b,
{
    lemma_represents_len(rows, a);
    lemma_represents_len(rows, b);
    lemma_same_prefix(rows, a, b, a.len() as int);
    assert(a.take(a.len() as int) =~= a);
    assert(b.take(b.len() as int) =~= b);
}

/// Two orders with the same linked form agree on their first `k` waypoints.
proof fn lemma_same_prefix(rows: Seq<OrderEntry>, a: Seq<WaypointID>, b: Seq<WaypointID>, k: int)
    requires
        represents(rows, a),
        represents(rows, b),
        0 <= k <= a.len(),
    ensures
        a.take(k) == b.take(k),
    decreases k,
{
    lemma_represents_len(rows, a);
    lemma_represents_len(rows, b);
    if k == 0 {
        assert(a.take(0) =~= b.take(0));
    } else {
        lemma_same_prefix(rows, a, b, k - 1);
        let j = lemma_row_of(rows, a, k - 1);
        let i = lemma_entry_of(rows, b, j);
        // the row names its predecessor, which both orders hold at k - 2
        if k - 1 > 0 {
            assert(a.take(k - 1)[k - 2] == b.take(k - 1)[k - 2]);
            assert(rows[j].prev == Some(a[k - 2]));
            assert(i > 0 && b[i - 1] == b[k - 2]);
            assert(i == k - 1);
        } else {
            assert(rows[j].prev is None);
            assert(i == 0);
        }
        assert(a[k - 1] == b[k - 1]);
        assert(a.take(k) =~= a.take(k - 1).push(a[k - 1]));
        assert(b.take(k) =~= b.take(k - 1).push(b[k - 1]));
    }
}

/// The row that the `i`-th waypoint of `order` has while the walk stands
/// behind the last waypoint of `order` and is about to go on to `ahead`.
spec fn entry_during(order: Seq<WaypointID>, i: int, ahead: Option<WaypointID>) -> OrderEntry {
    OrderEntry {
        wpt: order[i],
        prev: if i > 0 {
            Some(order[i - 1])
        } else {
            None
        },
        next: if i + 1 < order.len() {
            Some(order[i + 1])
        } else {
            ahead
        },
    }
}

/// A walk that has gone over `walked` and is about to go on to `ahead` is on
/// the way that `order` prescribes.
spec fn walk_follows(order: Seq<WaypointID>, walked: Seq<WaypointID>, ahead: Option<WaypointID>) -> bool {
    &&& walked.len() <= order.len()
    &&& walked == order.take(walked.len() as int)
    &&& match ahead {
        Some(c) => walked.len() < order.len() && order[walked.len() as int] == c,
        None => walked.len() == order.len(),
    }
}

/// Walks the links from the head of the list to its tail and returns the
/// waypoints in the order met.  The walk succeeds exactly if the rows are
/// the linked form of an order, and that order is what it returns; no rows
/// give the empty order.
pub fn materialize(rows: &Vec<OrderEntry>) -> (r: Result<Vec<WaypointID>, OrderError>)
    ensures
        match r {
            Ok(order) => represents(rows@, order@),
            Err(e) => e == OrderError::Malformed && forall|o: Seq<WaypointID>| !represents(rows@, o),
        },
{
    let mut order: Vec<WaypointID> = Vec::new();
    let mut last: Option<WaypointID> = None;
    let mut ahead: Option<WaypointID> = None;
    if rows.len() > 0 {
        match find_head(rows) {
            Some(h) => {
                ahead = Some(rows[h].wpt);
                proof {
                    assert forall|o: Seq<WaypointID>| #[trigger]
                        represents(rows@, o) implies walk_follows(o, order@, ahead) by {
                        lemma_represents_len(rows@, o);
                        let i = lemma_entry_of(rows@, o, h as int);
                        assert(i == 0);
                        assert(order@ =~= o.take(0));
                    }
                }
            },
            None => {
                proof {
                    assert forall|o: Seq<WaypointID>| !represents(rows@, o) by {
                        if represents(rows@, o) {
                            lemma_represents_len(rows@, o);
                            let j = lemma_row_of(rows@, o, 0);
                            assert(rows[j].prev is None);
                        }
                    }
                }
                return Err(OrderError::Malformed);
            },
        }
    } else {
        proof {
            assert forall|o: Seq<WaypointID>| #[trigger]
                represents(rows@, o) implies walk_follows(o, order@, ahead) by {
                lemma_represents_len(rows@, o);
                assert(order@ =~= o.take(0));
            }
        }
    }
    while ahead.is_some()
        invariant
            order.len() <= rows.len(),
            order@.no_duplicates(),
            last == if order.len() > 0 {
                Some(order@.last())
            } else {
                None::<WaypointID>
            },
            forall|i: int|
                0 <= i < order.len() ==> rows@.contains(#[trigger] entry_during(order@, i, ahead)),
            forall|o: Seq<WaypointID>| #[trigger]
                represents(rows@, o) ==> walk_follows(o, order@, ahead),
        decreases rows.len() - order.len(),
    {
        let c = ahead.unwrap();
        if order.len() == rows.len() {
            proof {
                assert forall|o: Seq<WaypointID>| !represents(rows@, o) by {
                    if represents(rows@, o) {
                        lemma_represents_len(rows@, o);
                        assert(walk_follows(o, order@, ahead));
                    }
                }
            }
            return Err(OrderError::Malformed);
        }
        let j = match find_row(rows, c) {
            Some(j) => j,
            None => {
                proof {
                    assert forall|o: Seq<WaypointID>| !represents(rows@, o) by {
                        if represents(rows@, o) {
                            assert(walk_follows(o, order@, ahead));
                            let e = lemma_row_of(rows@, o, order.len() as int);
                            assert(wpts_of(rows@)[e] == c);
                        }
                    }
                }
                return Err(OrderError::Malformed);
            },
        };
        let row = rows[j];
        if row.prev != last {
            proof {
                assert forall|o: Seq<WaypointID>| !represents(rows@, o) by {
                    if represents(rows@, o) {
                        assert(walk_follows(o, order@, ahead));
                        let k = order.len() as int;
                        lemma_row_is_entry(rows@, o, j as int, k);
                        if k > 0 {
                            assert(order@[k - 1] == o.take(k)[k - 1]);
                        }
                    }
                }
            }
            return Err(OrderError::Malformed);
        }
        if occurs(&order, c) {
            proof {
                assert forall|o: Seq<WaypointID>| !represents(rows@, o) by {
                    if represents(rows@, o) {
                        assert(walk_follows(o, order@, ahead));
                        lemma_represents_len(rows@, o);
                        let k = order.len() as int;
                        let i = choose|i: int| 0 <= i < order@.len() && order@[i] == c;
                        assert(o.take(k)[i] == o[i]);
                    }
                }
            }
            return Err(OrderError::Malformed);
        }
        let ghost walked = order@;
        let ghost before = ahead;
        order.push(c);
        last = Some(c);
        ahead = row.next;
        proof {
            let k = walked.len() as int;
            assert forall|i: int| 0 <= i < order.len() implies rows@.contains(
                #[trigger] entry_during(order@, i, ahead),
            ) by {
                if i < k {
                    assert(rows@.contains(entry_during(walked, i, before)));
                    assert(entry_during(order@, i, ahead) == entry_during(walked, i, before));
                } else {
                    assert(rows@[j as int] == entry_during(order@, i, ahead));
                }
            }
            assert forall|o: Seq<WaypointID>| #[trigger]
                represents(rows@, o) implies walk_follows(o, order@, ahead) by {
                assert(walk_follows(o, walked, before));
                lemma_row_is_entry(rows@, o, j as int, k);
                assert(order@ =~= o.take(k + 1));
            }
        }
    }
    if order.len() != rows.len() {
        proof {
            assert forall|o: Seq<WaypointID>| !represents(rows@, o) by {
                if represents(rows@, o) {
                    lemma_represents_len(rows@, o);
                    assert(walk_follows(o, order@, ahead));
                }
            }
        }
        return Err(OrderError::Malformed);
    }
    let mut j: usize = 0;
    while j < rows.len()
        invariant
            j <= rows.len(),
            order.len() == rows.len(),
            ahead is None,
            forall|o: Seq<WaypointID>| #[trigger]
                represents(rows@, o) ==> walk_follows(o, order@, ahead),
            forall|e: int| 0 <= e < j ==> order@.contains(#[trigger] rows[e].wpt),
            forall|e1: int, e2: int| 0 <= e1 < e2 < j ==> rows[e1].wpt != rows[e2].wpt,
        decreases rows.len() - j,
    {
        let id = rows[j].wpt;
        let first = find_row(rows, id);
        if !occurs(&order, id) || first != Some(j) {
            proof {
                assert forall|o: Seq<WaypointID>| !represents(rows@, o) by {
                    if represents(rows@, o) {
                        assert(walk_follows(o, order@, ahead));
                        assert(order@ =~= o);
                        let i = lemma_entry_of(rows@, o, j as int);
                        assert(o[i] == rows[j as int].wpt);
                        assert(wpts_of(rows@)[j as int] == id);
                        if let Some(f) = first {
                            if f != j {
                                lemma_rows_are_distinct(rows@, o, f as int, j as int);
                            }
                        }
                    }
                }
            }
            return Err(OrderError::Malformed);
        }
        j += 1;
    }
    proof {
        assert forall|i: int| 0 <= i < order.len() implies wpts_of(rows@).contains(
            #[trigger] order@[i],
        ) by {
            assert(rows@.contains(entry_during(order@, i, ahead)));
            let e = choose|e: int| 0 <= e < rows.len() && rows[e] == entry_during(order@, i, ahead);
            assert(wpts_of(rows@)[e] == order@[i]);
        }
        assert forall|e: int, i: int|
            0 <= e < rows.len() && 0 <= i < order.len() && (#[trigger] rows@[e]).wpt
                == #[trigger] order@[i] implies rows@[e] == entry_at(order@, i) by {
            assert(rows@.contains(entry_during(order@, i, ahead)));
            let f = choose|f: int| 0 <= f < rows.len() && rows[f] == entry_during(order@, i, ahead);
            if e < f {
                assert(rows[e].wpt != rows[f].wpt);
            } else if f < e {
                assert(rows[f].wpt != rows[e].wpt);
            }
        }
        assert forall|e: int| 0 <= e < rows.len() implies order@.contains(
            #[trigger] rows@[e].wpt,
        ) by {}
        assert forall|e1: int, e2: int| 0 <= e1 < e2 < rows.len() implies wpts_of(rows@)[e1]
            != wpts_of(rows@)[e2] by {
            assert(rows[e1].wpt != rows[e2].wpt);
        }
        lemma_represents_intro(rows@, order@);
    }
    Ok(order)
}

/// One change to the rows of the order table.
#[derive(Clone, Copy, Debug, PartialEq, Eq, Structural)]
pub enum OrderEdit {
    /// A new row is written.
    Insert { entry: OrderEntry },
    /// The row of `wpt` gets `next` for its successor.
    SetNext { wpt: WaypointID, next: Option<WaypointID> },
    /// The row of `wpt` gets `prev` for its predecessor.
    SetPrev { wpt: WaypointID, prev: Option<WaypointID> },
    /// The row of `wpt` is deleted.
    Remove { wpt: WaypointID },
}

/// The order after `id` was appended: `id` comes last, unless it was on the
/// path already.
pub open spec fn appended(order: Seq<WaypointID>, id: WaypointID) -> Seq<WaypointID> {
    if order.contains(id) {
        order
    } else {
        order.push(id)
    }
}

/// The order after `id` was unlinked: `id` is gone, and what remains keeps
/// its order.
pub open spec fn unlinked(order: Seq<WaypointID>, id: WaypointID) -> Seq<WaypointID> {
    order.remove_value(id)
}

/// The changes to the rows when `id` is appended to `order`: the new row is
/// written as the tail, then the old tail is made to point to it.
pub open spec fn append_edits(order: Seq<WaypointID>, id: WaypointID) -> Seq<OrderEdit> {
    if order.len() == 0 {
        seq![OrderEdit::Insert { entry: OrderEntry { wpt: id, prev: None, next: None } }]
    } else {
        seq![
            OrderEdit::Insert {
                entry: OrderEntry { wpt: id, prev: Some(order.last()), next: None },
            },
            OrderEdit::SetNext { wpt: order.last(), next: Some(id) },
        ]
    }
}

/// The changes to the rows when the row `gone` is unlinked: its predecessor
/// is made to point to its successor, its successor to its predecessor, and
/// only then is the row deleted.
pub open spec fn unlink_edits(gone: OrderEntry) -> Seq<OrderEdit> {
    let forward = match gone.prev {
        Some(p) => seq![OrderEdit::SetNext { wpt: p, next: gone.next }],
        None => Seq::empty(),
    };
    let backward = match gone.next {
        Some(q) => seq![OrderEdit::SetPrev { wpt: q, prev: gone.prev }],
        None => Seq::empty(),
    };
    forward + backward + seq![OrderEdit::Remove { wpt: gone.wpt }]
}

/// The row `row` once the row `gone` is taken out of the list: where `row`
/// pointed to `gone`, it now points to what `gone` pointed to.
pub open spec fn relinked(row: OrderEntry, gone: OrderEntry) -> OrderEntry {
    OrderEntry {
        wpt: row.wpt,
        prev: if row.prev == Some(gone.wpt) {
            gone.prev
        } else {
            row.prev
        },
        next: if row.next == Some(gone.wpt) {
            gone.next
        } else {
            row.next
        },
    }
}

/// The row `row` once `id` is appended behind the list: the tail, which had
/// no successor, now points to `id`.
pub open spec fn retailed(row: OrderEntry, id: WaypointID) -> OrderEntry {
    OrderEntry {
        wpt: row.wpt,
        prev: row.prev,
        next: if row.next is None {
            Some(id)
        } else {
            row.next
        },
    }
}

/// Appending a waypoint turns the row of every waypoint of the order into
/// that row with its tail pointed to the new waypoint.
proof fn lemma_retailed_entry(order: Seq<WaypointID>, id: WaypointID, i: int)
    requires
        0 <= i < order.len(),
    ensures
        retailed(entry_at(order, i), id) == entry_at(order.push(id), i),
{
    let order2 = order.push(id);
    assert(order2[i] == order[i]);
    if i > 0 {
        assert(order2[i - 1] == order[i - 1]);
    }
    if i + 1 < order.len() {
        assert(order2[i + 1] == order[i + 1]);
    } else {
        assert(order2[i + 1] == id);
    }
}

/// Writing the row of a new tail, and pointing the old tail to it, gives the
/// linked form of the order with the new waypoint appended.
proof fn lemma_append_represents(
    rows: Seq<OrderEntry>,
    order: Seq<WaypointID>,
    id: WaypointID,
    rows2: Seq<OrderEntry>,
)
    requires
        represents(rows, order),
        !order.contains(id),
        rows2.len() == rows.len() + 1,
        rows2[rows.len() as int] == entry_at(order.push(id), order.len() as int),
        forall|j: int| 0 <= j < rows.len() ==> #[trigger] rows2[j] == retailed(rows[j], id),
    ensures
        represents(rows2, order.push(id)),
{
    lemma_represents_len(rows, order);
    let n = order.len() as int;
    let order2 = order.push(id);
    assert(order2.no_duplicates()) by {
        assert forall|a: int, b: int| 0 <= a < b < order2.len() implies order2[a] != order2[b] by {
            if b < n {
                assert(order[a] != order[b]);
            } else {
                assert(order[a] != id);
            }
        }
    }
    assert forall|j: int| 0 <= j < rows2.len() implies order2.contains(
        #[trigger] rows2[j].wpt,
    ) by {
        if j < n {
            let i = lemma_entry_of(rows, order, j);
            assert(order2[i] == rows2[j].wpt);
        } else {
            assert(order2[n] == rows2[j].wpt);
        }
    }
    assert forall|i: int| 0 <= i < order2.len() implies wpts_of(rows2).contains(
        #[trigger] order2[i],
    ) by {
        if i < n {
            let j = lemma_row_of(rows, order, i);
            assert(wpts_of(rows2)[j] == order2[i]);
        } else {
            assert(wpts_of(rows2)[n] == order2[i]);
        }
    }
    assert forall|j1: int, j2: int| 0 <= j1 < j2 < rows2.len() implies wpts_of(rows2)[j1]
        != wpts_of(rows2)[j2] by {
        if j2 < n {
            lemma_rows_are_distinct(rows, order, j1, j2);
        } else {
            let i = lemma_entry_of(rows, order, j1);
            assert(order[i] != id);
        }
    }
    assert forall|j: int, i: int|
        0 <= j < rows2.len() && 0 <= i < order2.len() && (#[trigger] rows2[j]).wpt
            == #[trigger] order2[i] implies rows2[j] == entry_at(order2, i) by {
        if j < n {
            let e = lemma_entry_of(rows, order, j);
            assert(order[e] != id);
            if i < n {
                assert(order[e] == order[i]);
                assert(e == i);
                lemma_retailed_entry(order, id, i);
            }
        } else {
            if i < n {
                assert(order[i] == id);
            }
        }
    }
    lemma_represents_intro(rows2, order2);
}

/// In an order without duplicates, taking the `k`-th waypoint out turns the
/// row of every other waypoint into that row relinked.
proof fn lemma_relinked_entry(order: Seq<WaypointID>, k: int, i: int)
    requires
        order.no_duplicates(),
        0 <= k < order.len(),
        0 <= i < order.len(),
        i != k,
    ensures
        relinked(entry_at(order, i), entry_at(order, k)) == entry_at(
            order.remove(k),
            if i < k {
                i
            } else {
                i - 1
            },
        ),
{
    let order2 = order.remove(k);
    let i2 = if i < k { i } else { i - 1 };
    assert(order2[i2] == order[i]);
    if i > 0 && i - 1 != k {
        assert(order[i - 1] != order[k]);
    }
    if i + 1 < order.len() && i + 1 != k {
        assert(order[i + 1] != order[k]);
    }
    if i2 > 0 {
        let p = if i2 - 1 < k { i2 - 1 } else { i2 };
        assert(order2[i2 - 1] == order[p]);
    }
    if i2 + 1 < order2.len() {
        let q = if i2 + 1 < k { i2 + 1 } else { i2 + 2 };
        assert(order2[i2 + 1] == order[q]);
    }
}

/// Taking a row out of the list, with its neighbours pointed to each other,
/// gives the linked form of the order without the row's waypoint.
proof fn lemma_unlink_represents(
    rows: Seq<OrderEntry>,
    order: Seq<WaypointID>,
    j: int,
    k: int,
    rows2: Seq<OrderEntry>,
)
    requires
        represents(rows, order),
        0 <= j < rows.len(),
        0 <= k < order.len(),
        rows[j].wpt == order[k],
        rows2.len() == rows.len() - 1,
        forall|e: int| 0 <= e < j ==> #[trigger] rows2[e] == relinked(rows[e], rows[j]),
        forall|e: int|
            j <= e < rows2.len() ==> #[trigger] rows2[e] == relinked(rows[e + 1], rows[j]),
    ensures
        represents(rows2, order.remove(k)),
{
    lemma_represents_len(rows, order);
    lemma_row_is_entry(rows, order, j, k);
    let order2 = order.remove(k);
    let gone = rows[j];
    assert forall|a: int, b: int| 0 <= a < b < order2.len() implies order2[a] != order2[b] by {
        let sa = if a < k { a } else { a + 1 };
        let sb = if b < k { b } else { b + 1 };
        assert(order2[a] == order[sa] && order2[b] == order[sb]);
    }
    assert forall|e1: int, e2: int| 0 <= e1 < e2 < rows2.len() implies wpts_of(rows2)[e1]
        != wpts_of(rows2)[e2] by {
        let s1 = if e1 < j { e1 } else { e1 + 1 };
        let s2 = if e2 < j { e2 } else { e2 + 1 };
        lemma_rows_are_distinct(rows, order, s1, s2);
    }
    assert forall|e: int| 0 <= e < rows2.len() implies order2.contains(
        #[trigger] rows2[e].wpt,
    ) by {
        let s = if e < j { e } else { e + 1 };
        let i = lemma_entry_of(rows, order, s);
        lemma_rows_are_distinct(rows, order, s, j);
        assert(i != k);
        let i2 = if i < k { i } else { i - 1 };
        assert(order2[i2] == rows2[e].wpt);
    }
    assert forall|i2: int| 0 <= i2 < order2.len() implies wpts_of(rows2).contains(
        #[trigger] order2[i2],
    ) by {
        let i = if i2 < k { i2 } else { i2 + 1 };
        let s = lemma_row_of(rows, order, i);
        assert(s != j);
        let e = if s < j { s } else { s - 1 };
        assert(wpts_of(rows2)[e] == order2[i2]);
    }
    assert forall|e: int, i2: int|
        0 <= e < rows2.len() && 0 <= i2 < order2.len() && (#[trigger] rows2[e]).wpt
            == #[trigger] order2[i2] implies rows2[e] == entry_at(order2, i2) by {
        let s = if e < j { e } else { e + 1 };
        let i = if i2 < k { i2 } else { i2 + 1 };
        assert(rows2[e] == relinked(rows[s], gone));
        assert(order2[i2] == order[i]);
        lemma_row_is_entry(rows, order, s, i);
        lemma_relinked_entry(order, k, i);
    }
    lemma_represents_intro(rows2, order2);
}

/// In a linked form, the row of a waypoint points forward to another row
/// exactly if that row points back to it.
proof fn lemma_links_are_mutual(rows: Seq<OrderEntry>, order: Seq<WaypointID>, a: int, b: int)
    requires
        represents(rows, order),
        0 <= a < rows.len(),
        0 <= b < rows.len(),
        a != b,
    ensures
        (rows[a].next == Some(rows[b].wpt)) == (rows[b].prev == Some(rows[a].wpt)),
        rows[a].next != Some(rows[a].wpt),
        rows[a].prev != Some(rows[a].wpt),
{
    lemma_represents_len(rows, order);
    lemma_rows_are_distinct(rows, order, a, b);
    let ia = lemma_entry_of(rows, order, a);
    let ib = lemma_entry_of(rows, order, b);
    if ia + 1 < order.len() && ia + 1 != ib {
        assert(order[ia + 1] != order[ib]);
    }
    if ib > 0 && ib - 1 != ia {
        assert(order[ib - 1] != order[ia]);
    }
    if ia + 1 < order.len() {
        assert(order[ia + 1] != order[ia]);
    }
    if ia > 0 {
        assert(order[ia - 1] != order[ia]);
    }
}

/// The order of the waypoints of one path.
#[derive(Debug)]
pub struct PathOrder {
    entries: Vec<OrderEntry>,
}

impl View for PathOrder {
    type V = Seq<WaypointID>;

    /// The waypoints of the path, from the head of the list to its tail.
    open spec fn view(&self) -> Seq<WaypointID> {
        choose|order: Seq<WaypointID>| represents(self.rows(), order)
    }
}

impl PathOrder {
    /// The rows of the list, in no particular order.
    pub closed spec fn rows(&self) -> Seq<OrderEntry> {
        self.entries@
    }

    /// The rows link up to one list that holds each of them once.
    pub open spec fn wf(&self) -> bool {
        exists|order: Seq<WaypointID>| represents(self.rows(), order)
    }

    /// The rows of a well-formed list are the linked form of its view, which
    /// holds no waypoint twice.
    pub proof fn lemma_view(&self)
        requires
            self.wf(),
        ensures
            represents(self.rows(), self@),
            self@.no_duplicates(),
            self@.len() == self.rows().len(),
    {
        lemma_represents_len(self.rows(), self@);
    }

    /// A list is the order that its rows are the linked form of.
    pub proof fn lemma_view_is(&self, order: Seq<WaypointID>)
        requires
            represents(self.rows(), order),
        ensures
            self.wf(),
            self@ == order,
    {
        lemma_order_is_unique(self.rows(), self@, order);
    }

    /// The order of a path without waypoints.
    pub fn new() -> (p: PathOrder)
        ensures
            p.wf(),
            p@ == Seq::<WaypointID>::empty(),
            p.rows() == Seq::<OrderEntry>::empty(),
    {
        let p = PathOrder { entries: Vec::new() };
        proof {
            lemma_represents_intro(p.rows(), Seq::<WaypointID>::empty());
            p.lemma_view_is(Seq::<WaypointID>::empty());
        }
        p
    }

    /// Takes over the rows of a path as they are stored.  They are accepted
    /// exactly if they are the linked form of an order.
    pub fn from_rows(rows: Vec<OrderEntry>) -> (r: Result<PathOrder, OrderError>)
        ensures
            match r {
                Ok(p) => p.wf() && p.rows() == rows@,
                Err(e) => e == OrderError::Malformed && forall|o: Seq<WaypointID>|
                    !represents(rows@, o),
            },
    {
        match materialize(&rows) {
            Ok(order) => {
                let p = PathOrder { entries: rows };
                proof {
                    p.lemma_view_is(order@);
                }
                Ok(p)
            },
            Err(e) => Err(e),
        }
    }

    /// The rows of the list, as they are to be stored.
    pub fn entries(&self) -> (rows: Vec<OrderEntry>)
        ensures
            rows@ == self.rows(),
    {
        let mut rows: Vec<OrderEntry> = Vec::new();
        let mut j: usize = 0;
        while j < self.entries.len()
            invariant
                j <= self.entries.len(),
                rows@ == self.entries@.take(j as int),
            decreases self.entries.len() - j,
        {
            rows.push(self.entries[j]);
            assert(self.entries@.take(j + 1) =~= self.entries@.take(j as int).push(
                self.entries@[j as int],
            ));
            j += 1;
        }
        assert(self.entries@.take(self.entries.len() as int) =~= self.entries@);
        rows
    }

    /// The number of waypoints on the path.
    pub fn len(&self) -> (n: usize)
        requires
            self.wf(),
        ensures
            n == self@.len(),
    {
        proof {
            self.lemma_view();
        }
        self.entries.len()
    }

    /// The waypoints of the path in order, found by walking the links from
    /// the head of the list to its tail.
    pub fn ordered_ids(&self) -> (ids: Vec<WaypointID>)
        requires
            self.wf(),
        ensures
            ids@ == self@,
    {
        match materialize(&self.entries) {
            Ok(order) => {
                proof {
                    self.lemma_view_is(order@);
                }
                order
            },
            Err(_) => {
                assert(false);
                Vec::new()
            },
        }
    }

    /// Appends the waypoint `id` to the path and returns the changes this
    /// made to the rows.  A waypoint that is on the path already is refused
    /// and nothing changes.
    pub fn append(&mut self, id: WaypointID) -> (r: Result<Vec<OrderEdit>, OrderError>)
        requires
            old(self).wf(),
        ensures
            final(self).wf(),
            final(self)@ == appended(old(self)@, id),
            match r {
                Ok(edits) => !old(self)@.contains(id) && edits@ == append_edits(old(self)@, id),
                Err(e) => e == OrderError::Duplicate && old(self)@.contains(id)
                    && final(self).rows() == old(self).rows(),
            },
    {
        let ghost order = self@;
        let ghost rows = self.rows();
        proof {
            self.lemma_view();
        }
        if let Some(j) = find_row(&self.entries, id) {
            proof {
                let i = lemma_entry_of(rows, order, j as int);
            }
            return Err(OrderError::Duplicate);
        }
        proof {
            if order.contains(id) {
                let i = choose|i: int| 0 <= i < order.len() && order[i] == id;
                let j = lemma_row_of(rows, order, i);
                assert(wpts_of(rows)[j] == id);
            }
        }
        let mut edits: Vec<OrderEdit> = Vec::new();
        match find_tail(&self.entries) {
            Some(t) => {
                let tail = self.entries[t];
                let entry = OrderEntry { wpt: id, prev: Some(tail.wpt), next: None };
                proof {
                    let i = lemma_entry_of(rows, order, t as int);
                    assert(i == order.len() - 1);
                    assert forall|j: int| 0 <= j < rows.len() && j != t implies rows[j].next
                        is Some by {
                        let e = lemma_entry_of(rows, order, j);
                        lemma_rows_are_distinct(rows, order, j, t as int);
                    }
                }
                self.entries.push(entry);
                self.entries.set(
                    t,
                    OrderEntry { wpt: tail.wpt, prev: tail.prev, next: Some(id) },
                );
                edits.push(OrderEdit::Insert { entry });
                edits.push(OrderEdit::SetNext { wpt: tail.wpt, next: Some(id) });
            },
            None => {
                let entry = OrderEntry { wpt: id, prev: None, next: None };
                proof {
                    if order.len() > 0 {
                        let j = lemma_row_of(rows, order, order.len() - 1);
                    }
                }
                self.entries.push(entry);
                edits.push(OrderEdit::Insert { entry });
            },
        }
        proof {
            lemma_append_represents(rows, order, id, self.rows());
            self.lemma_view_is(order.push(id));
            assert(edits@ =~= append_edits(order, id));
        }
        Ok(edits)
    }

    /// Takes the waypoint `id` off the path and returns the changes this made
    /// to the rows.  A waypoint that is not on the path is refused and
    /// nothing changes.
    pub fn unlink(&mut self, id: WaypointID) -> (r: Result<Vec<OrderEdit>, OrderError>)
        requires
            old(self).wf(),
        ensures
            final(self).wf(),
            final(self)@ == unlinked(old(self)@, id),
            match r {
                Ok(edits) => {
                    let k = old(self)@.index_of(id);
                    &&& old(self)@.contains(id)
                    &&& edits@ == unlink_edits(entry_at(old(self)@, k))
                },
                Err(e) => e == OrderError::NotFound && !old(self)@.contains(id)
                    && final(self).rows() == old(self).rows(),
            },
    {
        let ghost order = self@;
        let ghost rows = self.rows();
        proof {
            self.lemma_view();
            order.index_of_first_ensures(id);
        }
        let j = match find_row(&self.entries, id) {
            Some(j) => j,
            None => {
                proof {
                    if order.contains(id) {
                        let i = choose|i: int| 0 <= i < order.len() && order[i] == id;
                        let e = lemma_row_of(rows, order, i);
                        assert(wpts_of(rows)[e] == id);
                    }
                }
                return Err(OrderError::NotFound);
            },
        };
        let gone = self.entries[j];
        let ghost k = lemma_entry_of(rows, order, j as int);
        proof {
            assert(order[k] == id);
            assert(order.index_of(id) == k);
            assert(order.index_of_first(id) == Some(k));
        }
        let mut edits: Vec<OrderEdit> = Vec::new();
        let ghost mut before: Option<int> = None;
        let ghost mut after: Option<int> = None;
        if let Some(p) = gone.prev {
            match find_row(&self.entries, p) {
                Some(jp) => {
                    let row = self.entries[jp];
                    self.entries.set(
                        jp,
                        OrderEntry { wpt: row.wpt, prev: row.prev, next: gone.next },
                    );
                    edits.push(OrderEdit::SetNext { wpt: p, next: gone.next });
                    proof {
                        before = Some(jp as int);
                    }
                },
                None => {
                    proof {
                        let e = lemma_row_of(rows, order, k - 1);
                        assert(wpts_of(rows)[e] == p);
                    }
                },
            }
        }
        let ghost forward = self.rows();
        if let Some(q) = gone.next {
            match find_row(&self.entries, q) {
                Some(jq) => {
                    let row = self.entries[jq];
                    self.entries.set(
                        jq,
                        OrderEntry { wpt: row.wpt, prev: gone.prev, next: row.next },
                    );
                    edits.push(OrderEdit::SetPrev { wpt: q, prev: gone.prev });
                    proof {
                        after = Some(jq as int);
                    }
                },
                None => {
                    proof {
                        let e = lemma_row_of(rows, order, k + 1);
                        assert(wpts_of(forward)[e] == q);
                    }
                },
            }
        }
        let ghost both = self.rows();
        self.entries.remove(j);
        edits.push(OrderEdit::Remove { wpt: id });
        proof {
            lemma_relink_rows(rows, order, j as int, k, before, after, both);
            lemma_unlink_represents(rows, order, j as int, k, self.rows());
            self.lemma_view_is(order.remove(k));
            assert(edits@ =~= unlink_edits(entry_at(order, k)));
        }
        Ok(edits)
    }
}

/// Pointing the neighbours of a row to each other relinks every other row.
proof fn lemma_relink_rows(
    rows: Seq<OrderEntry>,
    order: Seq<WaypointID>,
    j: int,
    k: int,
    before: Option<int>,
    after: Option<int>,
    both: Seq<OrderEntry>,
)
    requires
        represents(rows, order),
        0 <= j < rows.len(),
        0 <= k < order.len(),
        rows[j] == entry_at(order, k),
        match before {
            Some(a) => 0 <= a < rows.len() && rows[j].prev == Some(rows[a].wpt),
            None => rows[j].prev is None,
        },
        match after {
            Some(b) => 0 <= b < rows.len() && rows[j].next == Some(rows[b].wpt),
            None => rows[j].next is None,
        },
        both.len() == rows.len(),
        forall|e: int|
            0 <= e < rows.len() ==> #[trigger] both[e] == (OrderEntry {
                wpt: rows[e].wpt,
                prev: if after == Some(e) {
                    rows[j].prev
                } else {
                    rows[e].prev
                },
                next: if before == Some(e) {
                    rows[j].next
                } else {
                    rows[e].next
                },
            }),
    ensures
        forall|e: int|
            0 <= e < rows.len() && e != j ==> #[trigger] both[e] == relinked(rows[e], rows[j]),
{
    lemma_represents_len(rows, order);
    assert forall|e: int| 0 <= e < rows.len() && e != j implies #[trigger] both[e] == relinked(
        rows[e],
        rows[j],
    ) by {
        lemma_links_are_mutual(rows, order, e, j);
        lemma_links_are_mutual(rows, order, j, e);
        if let Some(a) = before {
            if a != e {
                lemma_rows_are_distinct(rows, order, a, e);
            }
        }
        if let Some(b) = after {
            if b != e {
                lemma_rows_are_distinct(rows, order, b, e);
            }
        }
    }
}

/// The order after the waypoints `ids` were appended to `order`, one after
/// another.
pub open spec fn after_appends(order: Seq<WaypointID>, ids: Seq<WaypointID>) -> Seq<WaypointID>
    decreases ids.len(),
{
    if ids.len() == 0 {
        order
    } else {
        appended(after_appends(order, ids.drop_last()), ids.last())
    }
}

/// The order after the waypoints `gone` were unlinked from `order`, one
/// after another.
pub open spec fn after_unlinks(order: Seq<WaypointID>, gone: Seq<WaypointID>) -> Seq<WaypointID>
    decreases gone.len(),
{
    if gone.len() == 0 {
        order
    } else {
        unlinked(after_unlinks(order, gone.drop_last()), gone.last())
    }
}

/// Removing a value that does not occur changes nothing.
proof fn lemma_remove_value_absent(s: Seq<WaypointID>, g: WaypointID)
    requires
        !s.contains(g),
    ensures
        s.remove_value(g) == s,
{
    s.index_of_first_ensures(g);
}

/// Removing a value from a sequence that ends in another value leaves that
/// end in place.
proof fn lemma_remove_value_push_other(s: Seq<WaypointID>, l: WaypointID, g: WaypointID)
    requires
        l != g,
    ensures
        s.push(l).remove_value(g) == s.remove_value(g).push(l),
{
    let t = s.push(l);
    s.index_of_first_ensures(g);
    t.index_of_first_ensures(g);
    match s.index_of_first(g) {
        Some(i) => {
            assert(t[i] == g);
            let j = t.index_of_first(g).unwrap();
            if j < i {
                assert(s[j] == t[j]);
            }
            if i < j {
                assert(t[i] != g);
            }
            assert(t.remove(i) =~= s.remove(i).push(l));
        },
        None => {
            if t.contains(g) {
                let j = choose|j: int| 0 <= j < t.len() && t[j] == g;
                assert(s[j] == g);
            }
        },
    }
}

/// Removing the value that a sequence ends in, and holds nowhere else,
/// removes that end.
proof fn lemma_remove_value_push_same(s: Seq<WaypointID>, g: WaypointID)
    requires
        !s.contains(g),
    ensures
        s.push(g).remove_value(g) == s,
{
    let t = s.push(g);
    t.index_of_first_ensures(g);
    assert(t[s.len() as int] == g);
    let j = t.index_of_first(g).unwrap();
    if j < s.len() {
        assert(s[j] == g);
    }
    assert(t.remove(s.len() as int) =~= s);
}

/// Unlinking a waypoint from what a filter kept of an order keeps what the
/// filter keeps once it also refuses that waypoint.
proof fn lemma_unlink_filtered(
    s: Seq<WaypointID>,
    keep: spec_fn(WaypointID) -> bool,
    g: WaypointID,
    keep2: spec_fn(WaypointID) -> bool,
)
    requires
        s.no_duplicates(),
        forall|x: WaypointID| #[trigger] keep2(x) == (keep(x) && x != g),
    ensures
        s.filter(keep).remove_value(g) == s.filter(keep2),
    decreases s.len(),
{
    reveal(Seq::filter);
    if s.len() == 0 {
        lemma_remove_value_absent(s.filter(keep), g);
    } else {
        let t = s.drop_last();
        let l = s.last();
        lemma_unlink_filtered(t, keep, g, keep2);
        let kept = t.filter(keep);
        if keep(l) {
            if l == g {
                if kept.contains(g) {
                    t.lemma_filter_contains_rev(keep, g);
                    let i = choose|i: int| 0 <= i < t.len() && t[i] == g;
                    assert(s[i] == s[s.len() - 1]);
                }
                lemma_remove_value_push_same(kept, g);
                lemma_remove_value_absent(kept, g);
            } else {
                lemma_remove_value_push_other(kept, l, g);
            }
        }
    }
}

/// A filter that refuses nothing keeps everything.
proof fn lemma_filter_keeps_all(s: Seq<WaypointID>, keep: spec_fn(WaypointID) -> bool)
    requires
        forall|x: WaypointID| #[trigger] keep(x),
    ensures
        s.filter(keep) == s,
    decreases s.len(),
{
    reveal(Seq::filter);
    if s.len() > 0 {
        lemma_filter_keeps_all(s.drop_last(), keep);
        assert(s.drop_last().push(s.last()) =~= s);
    }
}

/// What a filter keeps of a sequence without duplicates has none either.
proof fn lemma_filter_no_duplicates(s: Seq<WaypointID>, keep: spec_fn(WaypointID) -> bool)
    requires
        s.no_duplicates(),
    ensures
        s.filter(keep).no_duplicates(),
    decreases s.len(),
{
    reveal(Seq::filter);
    if s.len() > 0 {
        let t = s.drop_last();
        let l = s.last();
        lemma_filter_no_duplicates(t, keep);
        let kept = t.filter(keep);
        if keep(l) {
            if kept.contains(l) {
                t.lemma_filter_contains_rev(keep, l);
                let i = choose|i: int| 0 <= i < t.len() && t[i] == l;
                assert(s[i] == s[s.len() - 1]);
            }
            assert forall|a: int, b: int| 0 <= a < b < kept.push(l).len() implies kept.push(l)[a]
                != kept.push(l)[b] by {
                if b < kept.len() {
                    assert(kept[a] != kept[b]);
                } else {
                    assert(kept[a] == kept.push(l)[a]);
                }
            }
        }
    }
}

/// A path built by appending holds a waypoint exactly if it was appended.
proof fn lemma_appends_members(ids: Seq<WaypointID>, x: WaypointID)
    ensures
        after_appends(Seq::empty(), ids).contains(x) <==> ids.contains(x),
    decreases ids.len(),
{
    let r = after_appends(Seq::empty(), ids);
    if ids.len() == 0 {
        assert(r =~= ids);
    } else {
        let before = ids.drop_last();
        let l = ids.last();
        let rb = after_appends(Seq::empty(), before);
        lemma_appends_members(before, x);
        lemma_appends_members(before, l);
        if r.contains(x) {
            let i = choose|i: int| 0 <= i < r.len() && r[i] == x;
            if rb.contains(l) || i < rb.len() {
                assert(rb[i] == x);
                assert(rb.contains(x));
                assert(before.contains(x));
                let j = choose|j: int| 0 <= j < before.len() && before[j] == x;
                assert(ids[j] == x);
            } else {
                assert(ids[ids.len() - 1] == x);
            }
        }
        if ids.contains(x) {
            let j = choose|j: int| 0 <= j < ids.len() && ids[j] == x;
            if j < before.len() {
                assert(before[j] == x);
                assert(before.contains(x));
                assert(rb.contains(x));
                let i = choose|i: int| 0 <= i < rb.len() && rb[i] == x;
                assert(r[i] == x);
            } else {
                assert(x == l);
                if rb.contains(l) {
                    assert(r == rb);
                } else {
                    assert(r[rb.len() as int] == x);
                }
            }
        }
    }
}

/// Appending waypoints to the empty path, each of them once, gives the path
/// that holds them in the order of their appending.  Appending a waypoint a
/// second time changes nothing: the path never holds a waypoint twice, and
/// it holds exactly the waypoints that were appended.
pub proof fn lemma_appends_keep_order(ids: Seq<WaypointID>)
    ensures
        after_appends(Seq::empty(), ids).no_duplicates(),
        forall|x: WaypointID|
            #[trigger] after_appends(Seq::empty(), ids).contains(x) <==> ids.contains(x),
        ids.no_duplicates() ==> after_appends(Seq::empty(), ids) == ids,
    decreases ids.len(),
{
    let r = after_appends(Seq::empty(), ids);
    assert forall|x: WaypointID| #[trigger] r.contains(x) <==> ids.contains(x) by {
        lemma_appends_members(ids, x);
    }
    if ids.len() == 0 {
        assert(r =~= ids);
    } else {
        let before = ids.drop_last();
        let l = ids.last();
        let rb = after_appends(Seq::empty(), before);
        lemma_appends_keep_order(before);
        lemma_appends_members(before, l);
        if !rb.contains(l) {
            assert forall|a: int, b: int| 0 <= a < b < r.len() implies r[a] != r[b] by {
                if b < rb.len() {
                    assert(rb[a] != rb[b]);
                } else {
                    assert(rb[a] == r[a]);
                    assert(rb.contains(rb[a]));
                }
            }
        }
        if ids.no_duplicates() {
            assert forall|a: int, b: int| 0 <= a < b < before.len() implies before[a]
                != before[b] by {
                assert(ids[a] != ids[b]);
            }
            if before.contains(l) {
                let j = choose|j: int| 0 <= j < before.len() && before[j] == l;
                assert(ids[j] == ids[ids.len() - 1]);
            }
            assert(r =~= ids);
        }
    }
}

/// Unlinking waypoints from a path leaves the waypoints that were not
/// unlinked, in the order they had, and each of them once.
pub proof fn lemma_unlinks_keep_order(order: Seq<WaypointID>, gone: Seq<WaypointID>)
    requires
        order.no_duplicates(),
    ensures
        after_unlinks(order, gone) == order.filter(|id: WaypointID| !gone.contains(id)),
        after_unlinks(order, gone).no_duplicates(),
    decreases gone.len(),
{
    let keep = |id: WaypointID| !gone.contains(id);
    if gone.len() == 0 {
        lemma_filter_keeps_all(order, keep);
    } else {
        let before = gone.drop_last();
        let g = gone.last();
        let keep0 = |id: WaypointID| !before.contains(id);
        lemma_unlinks_keep_order(order, before);
        assert forall|x: WaypointID| #[trigger] keep(x) == (keep0(x) && x != g) by {
            if gone.contains(x) {
                let i = choose|i: int| 0 <= i < gone.len() && gone[i] == x;
                if i < before.len() {
                    assert(before[i] == x);
                }
            }
            if before.contains(x) {
                let i = choose|i: int| 0 <= i < before.len() && before[i] == x;
                assert(gone[i] == x);
            }
            if x == g {
                assert(gone[gone.len() - 1] == x);
            }
        }
        lemma_unlink_filtered(order, keep0, g, keep);
    }
    lemma_filter_no_duplicates(order, keep);
}

/// Whatever waypoints are appended to an empty path, each of them once, and
/// whichever are then unlinked, the path holds the appended waypoints that
/// were not unlinked, in the order of their appending, and each of them once.
pub proof fn lemma_order_round_trip(ids: Seq<WaypointID>, gone: Seq<WaypointID>)
    requires
        ids.no_duplicates(),
    ensures
        after_unlinks(after_appends(Seq::empty(), ids), gone) == ids.filter(
            |id: WaypointID| !gone.contains(id),
        ),
        after_unlinks(after_appends(Seq::empty(), ids), gone).no_duplicates(),
{
    lemma_appends_keep_order(ids);
    lemma_unlinks_keep_order(ids, gone);
}

} // verus!

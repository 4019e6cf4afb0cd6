//! The rows of a fan curve editor and the curve they make up.

use vstd::prelude::*;
use vstd::arithmetic::power2::*;
use crate::binary64;
use crate::binary64::Binary64;
use crate::comms::{CurvePoint, Sensor};
use crate::curve_laws;

verus! {

/// The highest temperature that a row can be set to.
pub const MAX_TEMP: u8 = 110;

/// How far above the last row a new one starts.
pub const TEMP_STEP: u8 = 5;

/// The temperature of the first row of an editor that starts without points.
pub const FIRST_TEMP: u8 = 50;

/// What the two input fields of a row hold.
#[derive(Clone, Copy, Debug, PartialEq, Eq, Structural)]
pub struct RowValues {
    pub temp: Binary64,
    pub rpm: Binary64,
}

/// A row to be shown, with the point that its input fields start out with.
#[derive(Clone, Copy, Debug, PartialEq, Eq, Structural)]
pub struct NewRow {
    pub id: u64,
    pub point: CurvePoint,
}

/// A curve to be sent to the daemon.
#[derive(Debug)]
pub struct CurveUpdate {
    pub ac: bool,
    pub sensor: Sensor,
    pub points: Vec<CurvePoint>,
}

/// The editor of the curve of one sensor.
#[derive(Debug)]
pub struct CurveEditor {
    pub ac: bool,
    pub sensor: Sensor,
    /// The slowest and the fastest speed of the device.
    pub fan_range: (Binary64, Binary64),
    /// The numbers of the rows, in the order they are shown.
    pub rows: Vec<u64>,
    /// The number that the next row gets.
    pub next_id: u64,
}

/// The point that the input fields of a row stand for: whole parts, each brought into the
/// range of its type.
pub open spec fn point_of(values: RowValues) -> CurvePoint {
    CurvePoint {
        temp_c: values.temp.whole_up_to(255) as u8,
        rpm: values.rpm.whole_up_to(65535) as u16,
    }
}

/// The points that rows stand for, in the order of the rows.
pub open spec fn points_of(rows: Seq<RowValues>) -> Seq<CurvePoint> {
    Seq::new(rows.len(), |i: int| point_of(rows[i]))
}

/// The points of one temperature, in the order they stand in.
pub open spec fn points_at(points: Seq<CurvePoint>, temp: u8) -> Seq<CurvePoint> {
    points.filter(|p: CurvePoint| p.temp_c == temp)
}

/// `sorted` holds `points` by temperature; points of one temperature keep their order.
pub open spec fn is_sorting(sorted: Seq<CurvePoint>, points: Seq<CurvePoint>) -> bool {
    &&& curve_laws::sorted_by_temp(sorted)
    &&& forall|temp: u8| #[trigger] points_at(sorted, temp) == points_at(points, temp)
}

/// Points of other temperatures do not show.
proof fn lemma_points_at_none(points: Seq<CurvePoint>, temp: u8)
    requires
        forall|i: int| 0 <= i < points.len() ==> (#[trigger] points[i]).temp_c != temp,
    ensures
        points_at(points, temp).len() == 0,
    decreases points.len(),
{
    reveal(Seq::filter);
    if points.len() > 0 {
        lemma_points_at_none(points.drop_last(), temp);
    }
}

/// A point put in before all hotter ones and behind all others comes last among those of
/// its temperature.
proof fn lemma_insert(sorted: Seq<CurvePoint>, point: CurvePoint, at: int)
    requires
        curve_laws::sorted_by_temp(sorted),
        0 <= at <= sorted.len(),
        forall|i: int| 0 <= i < at ==> (#[trigger] sorted[i]).temp_c <= point.temp_c,
        forall|i: int| at <= i < sorted.len() ==> (#[trigger] sorted[i]).temp_c > point.temp_c,
    ensures
        curve_laws::sorted_by_temp(sorted.insert(at, point)),
        forall|temp: u8| #[trigger]
            points_at(sorted.insert(at, point), temp) == points_at(sorted.push(point), temp),
{
    let front = sorted.subrange(0, at);
    let back = sorted.subrange(at, sorted.len() as int);
    assert(sorted.insert(at, point) =~= front + seq![point] + back);
    assert(sorted.push(point) =~= front + back + seq![point]);
    assert forall|temp: u8| #[trigger]
        points_at(sorted.insert(at, point), temp) == points_at(sorted.push(point), temp) by {
        let pred = |p: CurvePoint| p.temp_c == temp;
        Seq::filter_distributes_over_add(front + seq![point], back, pred);
        Seq::filter_distributes_over_add(front, seq![point], pred);
        Seq::filter_distributes_over_add(front + back, seq![point], pred);
        Seq::filter_distributes_over_add(front, back, pred);
        if temp == point.temp_c {
            lemma_points_at_none(back, temp);
            assert(back.filter(pred) =~= Seq::empty());
        } else {
            lemma_points_at_none(seq![point], temp);
            assert(seq![point].filter(pred) =~= Seq::empty());
        }
        assert(points_at(sorted.insert(at, point), temp) =~= points_at(sorted.push(point), temp));
    }
}

/// Appending a point shows among those of its temperature only.
proof fn lemma_push(a: Seq<CurvePoint>, b: Seq<CurvePoint>, point: CurvePoint)
    requires
        forall|temp: u8| #[trigger] points_at(a, temp) == points_at(b, temp),
    ensures
        forall|temp: u8| #[trigger] points_at(a.push(point), temp) == points_at(b.push(point), temp),
{
    reveal(Seq::filter);
    assert forall|temp: u8| #[trigger]
        points_at(a.push(point), temp) == points_at(b.push(point), temp) by {
        assert(a.push(point).drop_last() =~= a);
        assert(b.push(point).drop_last() =~= b);
        assert(points_at(a, temp) == points_at(b, temp));
    }
}

/// Sorts points by temperature; points of one temperature keep their order.
pub fn sort_by_temp(points: &Vec<CurvePoint>) -> (sorted: Vec<CurvePoint>)
    ensures
        is_sorting(sorted@, points@),
        sorted@.len() == points@.len(),
{
    let n: usize = points.len();
    let mut sorted: Vec<CurvePoint> = Vec::new();
    let mut i: usize = 0;
    assert(points@.subrange(0, 0) =~= sorted@);
    while i < n
        invariant
            i <= n,
            n == points@.len(),
            sorted@.len() == i,
            is_sorting(sorted@, points@.subrange(0, i as int)),
        decreases n - i,
    {
        let point = points[i];
        let mut at: usize = sorted.len();
        while at > 0 && sorted[at - 1].temp_c > point.temp_c
            invariant
                at <= sorted@.len(),
                forall|j: int|
                    at <= j < sorted@.len() ==> (#[trigger] sorted@[j]).temp_c > point.temp_c,
            decreases at,
        {
            at = at - 1;
        }
        proof {
            let seen = points@.subrange(0, i as int);
            assert(points@.subrange(0, i + 1) =~= seen.push(point));
            lemma_insert(sorted@, point, at as int);
            lemma_push(sorted@, seen, point);
        }
        sorted.insert(at, point);
        i = i + 1;
    }
    assert(points@.subrange(0, n as int) =~= points@);
    sorted
}

/// The title of the editor of a sensor's curve.
pub fn title(sensor: Sensor) -> (title: &'static str)
    ensures
        title@ == match sensor {
            Sensor::Cpu => "CPU curve"@,
            Sensor::Gpu => "GPU curve"@,
        },
{
    match sensor {
        Sensor::Cpu => "CPU curve",
        Sensor::Gpu => "GPU curve",
    }
}

/// The points that an editor starts out with: those of the curve, or a single one at the
/// slowest speed.
pub open spec fn starting_points(initial: Seq<CurvePoint>, slowest: Binary64) -> Seq<CurvePoint> {
    if initial.len() == 0 {
        seq![CurvePoint { temp_c: FIRST_TEMP, rpm: slowest.whole_up_to(65535) as u16 }]
    } else {
        initial
    }
}

/// The rows of `points`, numbered from zero.
pub open spec fn numbered(points: Seq<CurvePoint>) -> Seq<NewRow> {
    Seq::new(points.len(), |i: int| NewRow { id: i as u64, point: points[i] })
}

/// Opens an editor for a curve, and says which rows it shows.
pub fn make_curve_editor(
    ac: bool,
    sensor: Sensor,
    fan_range: (Binary64, Binary64),
    initial: &Vec<CurvePoint>,
) -> (opened: (CurveEditor, Vec<NewRow>))
    ensures
        opened.0.wf(),
        opened.0.ac == ac,
        opened.0.sensor == sensor,
        opened.0.fan_range == fan_range,
        opened.1@ == numbered(starting_points(initial@, fan_range.0)),
        opened.0.rows@ == Seq::new(opened.1@.len(), |i: int| i as u64),
        opened.0.next_id == opened.1@.len(),
{
    let mut editor = CurveEditor { ac, sensor, fan_range, rows: Vec::new(), next_id: 0 };
    let mut shown: Vec<NewRow> = Vec::new();
    if initial.len() == 0 {
        let point = CurvePoint { temp_c: FIRST_TEMP, rpm: fan_range.0.to_u16() };
        shown.push(editor.add_row(point));
    } else {
        let n: usize = initial.len();
        let mut i: usize = 0;
        while i < n
            invariant
                i <= n,
                n == initial@.len(),
                editor.ids_fresh(),
                editor.ac == ac,
                editor.sensor == sensor,
                editor.fan_range == fan_range,
                shown@ == numbered(initial@.subrange(0, i as int)),
                editor.rows@ == Seq::new(i as nat, |j: int| j as u64),
                editor.next_id == i,
            decreases n - i,
        {
            shown.push(editor.add_row(initial[i]));
            i = i + 1;
            proof {
                assert(shown@ =~= numbered(initial@.subrange(0, i as int)));
                assert(editor.rows@ =~= Seq::new(i as nat, |j: int| j as u64));
            }
        }
        assert(initial@.subrange(0, n as int) =~= initial@);
    }
    assert(shown@ =~= numbered(starting_points(initial@, fan_range.0)));
    assert(editor.rows@ =~= Seq::new(shown@.len(), |i: int| i as u64));
    (editor, shown)
}

/// What the last row holds, where there is one.
pub open spec fn last_values(values: Seq<RowValues>) -> Option<RowValues> {
    if values.len() == 0 {
        None
    } else {
        Some(values.last())
    }
}

/// What the last row holds, where there is one.
fn last_of(values: &Vec<RowValues>) -> (last: Option<RowValues>)
    ensures
        last == last_values(values@),
{
    let n: usize = values.len();
    if n == 0 {
        None
    } else {
        Some(values[n - 1])
    }
}

impl CurveEditor {
    /// No two rows have one number, and none has the number of a row to come.
    pub open spec fn ids_fresh(self) -> bool {
        &&& forall|i: int| 0 <= i < self.rows@.len() ==> #[trigger] self.rows@[i] < self.next_id
        &&& forall|i: int, j: int|
            0 <= i < j < self.rows@.len() ==> self.rows@[i] != self.rows@[j]
    }

    /// An editor always has a row, and its rows can be told apart.
    pub open spec fn wf(self) -> bool {
        &&& self.rows@.len() > 0
        &&& self.ids_fresh()
    }

    /// Adds a row for `point` behind the others.
    pub fn add_row(&mut self, point: CurvePoint) -> (row: NewRow)
        requires
            old(self).ids_fresh(),
            old(self).next_id < u64::MAX,
        ensures
            final(self).wf(),
            final(self).rows@ == old(self).rows@.push(old(self).next_id),
            final(self).next_id == old(self).next_id + 1,
            final(self).ac == old(self).ac,
            final(self).sensor == old(self).sensor,
            final(self).fan_range == old(self).fan_range,
            row == (NewRow { id: old(self).next_id, point }),
    {
        let id: u64 = self.next_id;
        self.next_id = id + 1;
        self.rows.push(id);
        NewRow { id, point }
    }

    /// The point that a row added behind one with the values `last` starts out with.
    pub open spec fn next_point(self, last: Option<RowValues>) -> CurvePoint {
        match last {
            Some(values) => {
                let temp = point_of(values).temp_c + TEMP_STEP;
                CurvePoint {
                    temp_c: if temp > MAX_TEMP {
                        MAX_TEMP
                    } else {
                        temp as u8
                    },
                    rpm: point_of(values).rpm,
                }
            },
            None => CurvePoint {
                temp_c: FIRST_TEMP,
                rpm: self.fan_range.0.whole_up_to(65535) as u16,
            },
        }
    }

    /// The point that a row added behind one with the values `last` starts out with.
    fn point_after(&self, last: Option<RowValues>) -> (point: CurvePoint)
        ensures
            point == self.next_point(last),
    {
        match last {
            Some(values) => {
                let temp: u8 = values.temp.to_u8().saturating_add(TEMP_STEP);
                CurvePoint {
                    temp_c: if temp > MAX_TEMP {
                        MAX_TEMP
                    } else {
                        temp
                    },
                    rpm: values.rpm.to_u16(),
                }
            },
            None => CurvePoint { temp_c: FIRST_TEMP, rpm: self.fan_range.0.to_u16() },
        }
    }

    /// Adds a row a little hotter than the last one, whose values are `last`, and as fast.
    pub fn add_point(&mut self, last: Option<RowValues>) -> (row: NewRow)
        requires
            old(self).ids_fresh(),
            old(self).next_id < u64::MAX,
        ensures
            final(self).wf(),
            final(self).rows@ == old(self).rows@.push(old(self).next_id),
            final(self).next_id == old(self).next_id + 1,
            final(self).ac == old(self).ac,
            final(self).sensor == old(self).sensor,
            final(self).fan_range == old(self).fan_range,
            row == (NewRow { id: old(self).next_id, point: old(self).next_point(last) }),
    {
        let point = self.point_after(last);
        self.add_row(point)
    }

    /// Removes the row with the number `id`, unless it is the only one or there is none
    /// such. Returns the place it was removed from.
    pub fn remove_row(&mut self, id: u64) -> (place: Option<usize>)
        requires
            old(self).wf(),
        ensures
            final(self).wf(),
            final(self).next_id == old(self).next_id,
            final(self).ac == old(self).ac,
            final(self).sensor == old(self).sensor,
            final(self).fan_range == old(self).fan_range,
            match place {
                Some(i) => {
                    &&& old(self).rows@.len() > 1
                    &&& i < old(self).rows@.len()
                    &&& old(self).rows@[i as int] == id
                    &&& final(self).rows@ == old(self).rows@.remove(i as int)
                },
                None => {
                    &&& old(self).rows@.len() == 1 || !old(self).rows@.contains(id)
                    &&& final(self).rows@ == old(self).rows@
                },
            },
    {
        let n: usize = self.rows.len();
        if n <= 1 {
            return None;
        }
        let mut i: usize = 0;
        while i < n
            invariant
                i <= n,
                1 < n == self.rows@.len(),
                *self == *old(self),
                old(self).wf(),
                forall|j: int| 0 <= j < i ==> self.rows@[j] != id,
            decreases n - i,
        {
            if self.rows[i] == id {
                let _ = self.rows.remove(i);
                return Some(i);
            }
            i = i + 1;
        }
        None
    }

    /// The curve that the rows with these values make up: their points by temperature.
    /// Nothing is sent for an editor without rows.
    pub fn push_curve(&self, values: &Vec<RowValues>) -> (update: Option<CurveUpdate>)
        ensures
            match update {
                Some(u) => {
                    &&& values@.len() > 0
                    &&& u.ac == self.ac
                    &&& u.sensor == self.sensor
                    &&& is_sorting(u.points@, points_of(values@))
                    &&& u.points@.len() == values@.len()
                },
                None => values@.len() == 0,
            },
    {
        if values.len() == 0 {
            return None;
        }
        Some(self.curve_of(values))
    }

    /// The curve that the rows with these values make up: their points by temperature.
    fn curve_of(&self, values: &Vec<RowValues>) -> (update: CurveUpdate)
        ensures
            update.ac == self.ac,
            update.sensor == self.sensor,
            is_sorting(update.points@, points_of(values@)),
            update.points@.len() == values@.len(),
    {
        let n: usize = values.len();
        let mut points: Vec<CurvePoint> = Vec::new();
        let mut i: usize = 0;
        while i < n
            invariant
                i <= n,
                n == values@.len(),
                points@ == points_of(values@.subrange(0, i as int)),
            decreases n - i,
        {
            let row = values[i];
            points.push(CurvePoint { temp_c: row.temp.to_u8(), rpm: row.rpm.to_u16() });
            i = i + 1;
            assert(points@ =~= points_of(values@.subrange(0, i as int)));
        }
        assert(values@.subrange(0, n as int) =~= values@);
        CurveUpdate { ac: self.ac, sensor: self.sensor, points: sort_by_temp(&points) }
    }

    /// Removes the row with the number `id`, where the rows hold `values`, and makes up the
    /// curve of the rows that are left. Where nothing is removed, nothing is to be sent.
    pub fn remove_point(&mut self, id: u64, values: &Vec<RowValues>) -> (done: Option<
        (usize, CurveUpdate),
    >)
        requires
            old(self).wf(),
            values@.len() == old(self).rows@.len(),
        ensures
            final(self).wf(),
            final(self).next_id == old(self).next_id,
            final(self).ac == old(self).ac,
            final(self).sensor == old(self).sensor,
            final(self).fan_range == old(self).fan_range,
            match done {
                Some((i, u)) => {
                    &&& old(self).rows@.len() > 1
                    &&& i < old(self).rows@.len()
                    &&& old(self).rows@[i as int] == id
                    &&& final(self).rows@ == old(self).rows@.remove(i as int)
                    &&& u.ac == old(self).ac
                    &&& u.sensor == old(self).sensor
                    &&& is_sorting(u.points@, points_of(values@.remove(i as int)))
                    &&& u.points@.len() == final(self).rows@.len()
                },
                None => {
                    &&& old(self).rows@.len() == 1 || !old(self).rows@.contains(id)
                    &&& final(self).rows@ == old(self).rows@
                },
            },
    {
        match self.remove_row(id) {
            Some(i) => {
                let mut left: Vec<RowValues> = values.clone();
                assert(left@ =~= values@);
                let _ = left.remove(i);
                Some((i, self.curve_of(&left)))
            },
            None => None,
        }
    }

    /// The row that is added next, where the rows hold `values`.
    pub fn next_row(&self, values: &Vec<RowValues>) -> (row: NewRow)
        ensures
            row == (NewRow { id: self.next_id, point: self.next_point(last_values(values@)) }),
    {
        NewRow { id: self.next_id, point: self.point_after(last_of(values)) }
    }

    /// Adds the row that `next_row` gives, where the other rows hold `values` and the new one
    /// is seen to hold `shown`, and makes up the curve of all of them.
    pub fn append_point(&mut self, values: &Vec<RowValues>, shown: RowValues) -> (done: (
        NewRow,
        CurveUpdate,
    ))
        requires
            old(self).ids_fresh(),
            old(self).next_id < u64::MAX,
            values@.len() == old(self).rows@.len(),
        ensures
            final(self).wf(),
            final(self).rows@ == old(self).rows@.push(old(self).next_id),
            final(self).next_id == old(self).next_id + 1,
            final(self).ac == old(self).ac,
            final(self).sensor == old(self).sensor,
            final(self).fan_range == old(self).fan_range,
            done.0 == (NewRow {
                id: old(self).next_id,
                point: old(self).next_point(last_values(values@)),
            }),
            done.1.ac == old(self).ac,
            done.1.sensor == old(self).sensor,
            is_sorting(done.1.points@, points_of(values@.push(shown))),
            done.1.points@.len() == final(self).rows@.len(),
    {
        let row = self.add_point(last_of(values));
        let mut all: Vec<RowValues> = values.clone();
        assert(all@ =~= values@);
        all.push(shown);
        (row, self.curve_of(&all))
    }
}

/// The last point of a curve in order is the last one of its temperature.
proof fn lemma_last_point(sorted: Seq<CurvePoint>)
    requires
        sorted.len() > 0,
    ensures
        points_at(sorted, sorted.last().temp_c) == points_at(
            sorted.drop_last(),
            sorted.last().temp_c,
        ).push(sorted.last()),
        forall|temp: u8|
            temp != sorted.last().temp_c ==> #[trigger] points_at(sorted, temp) == points_at(
                sorted.drop_last(),
                temp,
            ),
{
    reveal(Seq::filter);
}

/// A temperature that shows is that of a point.
proof fn lemma_points_at_some(points: Seq<CurvePoint>, temp: u8) -> (i: int)
    requires
        points_at(points, temp).len() > 0,
    ensures
        0 <= i < points.len(),
        points[i].temp_c == temp,
{
    if forall|i: int| 0 <= i < points.len() ==> (#[trigger] points[i]).temp_c != temp {
        lemma_points_at_none(points, temp);
    }
    choose|i: int| 0 <= i < points.len() && (#[trigger] points[i]).temp_c == temp
}

/// There is one way only to sort points by temperature and keep the order of those that
/// have the same.
pub proof fn law_sorting_determined(
    a: Seq<CurvePoint>,
    b: Seq<CurvePoint>,
    points: Seq<CurvePoint>,
)
    requires
        is_sorting(a, points),
        is_sorting(b, points),
    ensures
        a == b,
{
    assert forall|temp: u8| #[trigger] points_at(a, temp) == points_at(b, temp) by {
        assert(points_at(b, temp) == points_at(points, temp));
    }
    lemma_same_sorting(a, b);
}

/// Two curves in order with the same points at every temperature are the same.
proof fn lemma_same_sorting(a: Seq<CurvePoint>, b: Seq<CurvePoint>)
    requires
        curve_laws::sorted_by_temp(a),
        curve_laws::sorted_by_temp(b),
        forall|temp: u8| #[trigger] points_at(a, temp) == points_at(b, temp),
    ensures
        a == b,
    decreases a.len(),
{
    if a.len() == 0 {
        if b.len() > 0 {
            lemma_last_point(b);
            assert(points_at(a, b.last().temp_c) == points_at(b, b.last().temp_c));
            let i = lemma_points_at_some(a, b.last().temp_c);
        }
        assert(a =~= b);
    } else {
        lemma_last_point(a);
        let t = a.last().temp_c;
        assert(points_at(a, t) == points_at(b, t));
        let i = lemma_points_at_some(b, t);
        lemma_last_point(b);
        let w = b.last().temp_c;
        assert(points_at(a, w) == points_at(b, w));
        let j = lemma_points_at_some(a, w);
        assert(t <= w && w <= t);
        let x = points_at(a.drop_last(), t);
        let y = points_at(b.drop_last(), t);
        assert(x.push(a.last()).last() == y.push(b.last()).last());
        assert forall|temp: u8| #[trigger]
            points_at(a.drop_last(), temp) == points_at(b.drop_last(), temp) by {
            assert(points_at(a, temp) == points_at(b, temp));
            if temp == t {
                assert(x =~= x.push(a.last()).drop_last());
                assert(y =~= y.push(b.last()).drop_last());
            }
        }
        lemma_same_sorting(a.drop_last(), b.drop_last());
        assert(a =~= a.drop_last().push(a.last()));
        assert(b =~= b.drop_last().push(b.last()));
    }
}

/// Sorting leaves a curve as it is that is in order already.
pub proof fn law_sorting_keeps_order(sorted: Seq<CurvePoint>, points: Seq<CurvePoint>)
    requires
        is_sorting(sorted, points),
        curve_laws::sorted_by_temp(points),
    ensures
        sorted == points,
{
    law_sorting_determined(sorted, points, points);
}

/// How often a point occurs shows among the points of its temperature.
proof fn lemma_count(points: Seq<CurvePoint>, p: CurvePoint)
    ensures
        points.to_multiset().count(p) == points_at(points, p.temp_c).to_multiset().count(p),
    decreases points.len(),
{
    broadcast use vstd::seq_lib::group_to_multiset_ensures;

    if points.len() == 0 {
        reveal(Seq::filter);
        assert(points_at(points, p.temp_c) =~= points);
    } else {
        let rest = points.drop_last();
        lemma_count(rest, p);
        lemma_last_point(points);
        assert(points =~= rest.push(points.last()));
    }
}

/// Sorting neither adds nor loses a point.
pub proof fn law_sorting_keeps_points(sorted: Seq<CurvePoint>, points: Seq<CurvePoint>)
    requires
        is_sorting(sorted, points),
    ensures
        sorted.to_multiset() =~= points.to_multiset(),
{
    assert forall|p: CurvePoint|
        sorted.to_multiset().count(p) == points.to_multiset().count(p) by {
        lemma_count(sorted, p);
        lemma_count(points, p);
        assert(points_at(sorted, p.temp_c) == points_at(points, p.temp_c));
    }
}

/// Removing a row right after it was added brings the rows back.
pub proof fn law_remove_undoes_add(before: CurveEditor, added: Seq<u64>, place: usize)
    requires
        before.wf(),
        added == before.rows@.push(before.next_id),
        place < added.len(),
        added[place as int] == before.next_id,
    ensures
        place == before.rows@.len(),
        added.remove(place as int) == before.rows@,
{
    if place < before.rows@.len() {
        assert(before.rows@[place as int] < before.next_id);
    }
    assert(added.remove(place as int) =~= before.rows@);
}

/// A new row starts five degrees above the whole degrees of the last one, but never above
/// 110, and at the last one's whole speed.
pub proof fn law_new_row_follows(
    editor: CurveEditor,
    last: RowValues,
    degrees: nat,
    turns: nat,
)
    requires
        last.temp.bits < 0x7ff0_0000_0000_0000,
        degrees * pow2(1074) <= last.temp.magnitude() < (degrees + 1) * pow2(1074),
        last.rpm.bits < 0x7ff0_0000_0000_0000,
        turns * pow2(1074) <= last.rpm.magnitude() < (turns + 1) * pow2(1074),
    ensures
        degrees <= 105 ==> editor.next_point(Some(last)).temp_c == degrees + 5,
        degrees > 105 ==> editor.next_point(Some(last)).temp_c == 110,
        turns <= 65535 ==> editor.next_point(Some(last)).rpm == turns,
        turns > 65535 ==> editor.next_point(Some(last)).rpm == 65535,
{
    binary64::law_whole_part_found(last.temp, 255, degrees);
    binary64::law_whole_part_found(last.rpm, 65535, turns);
}

/// The two fields of a row bear on a new one each for itself: less than zero and what is
/// not a number count as zero, and what has no end as the most there is.
pub proof fn law_new_row_beyond(editor: CurveEditor, last: RowValues)
    ensures
        last.temp.bits > 0x7ff0_0000_0000_0000 ==> editor.next_point(Some(last)).temp_c == 5,
        last.temp.bits == 0x7ff0_0000_0000_0000 ==> editor.next_point(Some(last)).temp_c == 110,
        last.rpm.bits > 0x7ff0_0000_0000_0000 ==> editor.next_point(Some(last)).rpm == 0,
        last.rpm.bits == 0x7ff0_0000_0000_0000 ==> editor.next_point(Some(last)).rpm == 65535,
{
    binary64::law_whole_part(last.temp, 255);
    binary64::law_whole_part(last.rpm, 65535);
}

/// Each field of a row bears on the same one of the row behind it alone, whatever editor the
/// row stands in.
pub proof fn law_new_row_fields_apart(
    editor: CurveEditor,
    other: CurveEditor,
    last: RowValues,
    other_last: RowValues,
)
    ensures
        last.temp == other_last.temp ==> editor.next_point(Some(last)).temp_c == other.next_point(
            Some(other_last),
        ).temp_c,
        last.rpm == other_last.rpm ==> editor.next_point(Some(last)).rpm == other.next_point(
            Some(other_last),
        ).rpm,
{
}

/// In an editor without rows a new one starts at 50 degrees and the whole part of the slowest
/// speed, brought between zero and 65535.
pub proof fn law_first_row(editor: CurveEditor, turns: nat)
    ensures
        editor.next_point(None).temp_c == 50,
        ({
            let slowest = editor.fan_range.0;
            let rpm = editor.next_point(None).rpm;
            &&& slowest.bits > 0x7ff0_0000_0000_0000 ==> rpm == 0
            &&& slowest.bits == 0x7ff0_0000_0000_0000 ==> rpm == 65535
            &&& slowest.bits < 0x7ff0_0000_0000_0000 && turns * pow2(1074) <= slowest.magnitude()
                < (turns + 1) * pow2(1074) ==> rpm == if turns <= 65535 {
                turns as int
            } else {
                65535
            }
        }),
{
    let slowest = editor.fan_range.0;
    binary64::law_whole_part(slowest, 65535);
    if slowest.bits < 0x7ff0_0000_0000_0000 && turns * pow2(1074) <= slowest.magnitude() < (turns
        + 1) * pow2(1074) {
        binary64::law_whole_part_found(slowest, 65535, turns);
    }
}

/// What the last row holds is the last of what the rows hold.
pub proof fn law_last_row(values: Seq<RowValues>, last: RowValues)
    ensures
        last_values(values.push(last)) == Some(last),
        last_values(Seq::empty()) is None,
{
}

/// Every row stands for one point, at the same place: its whole degrees up to 255, and its
/// whole turns up to 65535.
pub proof fn law_row_is_point(rows: Seq<RowValues>, i: int, degrees: nat, turns: nat)
    requires
        0 <= i < rows.len(),
        rows[i].temp.bits < 0x7ff0_0000_0000_0000,
        degrees * pow2(1074) <= rows[i].temp.magnitude() < (degrees + 1) * pow2(1074),
        rows[i].rpm.bits < 0x7ff0_0000_0000_0000,
        turns * pow2(1074) <= rows[i].rpm.magnitude() < (turns + 1) * pow2(1074),
    ensures
        points_of(rows).len() == rows.len(),
        points_of(rows)[i].temp_c == if degrees <= 255 {
            degrees as int
        } else {
            255
        },
        points_of(rows)[i].rpm == if turns <= 65535 {
            turns as int
        } else {
            65535
        },
{
    binary64::law_whole_part_found(rows[i].temp, 255, degrees);
    binary64::law_whole_part_found(rows[i].rpm, 65535, turns);
}

/// A field below zero or without a number counts as zero, one without end as the most there
/// is.
pub proof fn law_row_beyond(rows: Seq<RowValues>, i: int)
    requires
        0 <= i < rows.len(),
    ensures
        points_of(rows).len() == rows.len(),
        rows[i].temp.bits > 0x7ff0_0000_0000_0000 ==> points_of(rows)[i].temp_c == 0,
        rows[i].temp.bits == 0x7ff0_0000_0000_0000 ==> points_of(rows)[i].temp_c == 255,
        rows[i].rpm.bits > 0x7ff0_0000_0000_0000 ==> points_of(rows)[i].rpm == 0,
        rows[i].rpm.bits == 0x7ff0_0000_0000_0000 ==> points_of(rows)[i].rpm == 65535,
{
    binary64::law_whole_part(rows[i].temp, 255);
    binary64::law_whole_part(rows[i].rpm, 65535);
}

/// The point of a row depends on that row alone.
pub proof fn law_rows_apart(rows: Seq<RowValues>, i: int, others: Seq<RowValues>, j: int)
    requires
        0 <= i < rows.len(),
        0 <= j < others.len(),
    ensures
        rows[i].temp == others[j].temp ==> points_of(rows)[i].temp_c == points_of(
            others,
        )[j].temp_c,
        rows[i].rpm == others[j].rpm ==> points_of(rows)[i].rpm == points_of(others)[j].rpm,
{
}

/// A sorted curve gets no cooler from one point to a later one, has as many points as there
/// were, and has those of each temperature in the order they were in.
pub proof fn law_sorting_is_stable(sorted: Seq<CurvePoint>, points: Seq<CurvePoint>, temp: u8)
    requires
        is_sorting(sorted, points),
    ensures
        forall|i: int, j: int|
            0 <= i <= j < sorted.len() ==> sorted[i].temp_c <= sorted[j].temp_c,
        sorted.len() == points.len(),
        sorted.filter(|p: CurvePoint| p.temp_c == temp) == points.filter(
            |p: CurvePoint| p.temp_c == temp,
        ),
{
    broadcast use vstd::seq_lib::group_to_multiset_ensures;

    law_sorting_keeps_points(sorted, points);
    assert(sorted.to_multiset().len() == points.to_multiset().len());
    assert(points_at(sorted, temp) == points_at(points, temp));
}

/// An editor opens with one row for each point of the curve, in the same order and numbered
/// from zero.
pub proof fn law_editor_shows_curve(initial: Seq<CurvePoint>, slowest: Binary64, i: int)
    requires
        0 <= i < initial.len() <= u64::MAX,
    ensures
        numbered(starting_points(initial, slowest)).len() == initial.len(),
        numbered(starting_points(initial, slowest))[i].id == i,
        numbered(starting_points(initial, slowest))[i].point == initial[i],
{
}

/// Without a curve an editor opens with a single row, the same that it would add to none.
pub proof fn law_editor_starts_afresh(editor: CurveEditor)
    ensures
        ({
            let rows = numbered(starting_points(Seq::empty(), editor.fan_range.0));
            &&& rows.len() == 1
            &&& rows[0].id == 0
            &&& rows[0].point == editor.next_point(None)
        }),
{
}

/// An editor is in order exactly where it has a row, every row has a number that was given
/// out, and no number was given out twice.
pub proof fn law_rows_told_apart(editor: CurveEditor)
    ensures
        editor.wf() <==> {
            &&& editor.rows@.len() > 0
            &&& editor.rows@.no_duplicates()
            &&& forall|i: int|
                0 <= i < editor.rows@.len() ==> (#[trigger] editor.rows@[i]) < editor.next_id
        },
{
    if editor.wf() {
        assert forall|i: int, j: int|
            0 <= i < editor.rows@.len() && 0 <= j < editor.rows@.len() && i
                != j implies editor.rows@[i] != editor.rows@[j] by {
            if i > j {
                assert(editor.rows@[j] != editor.rows@[i]);
            }
        }
    }
}

}

use razer_control::binary64::Binary64;
use razer_control::comms::{CurvePoint, Sensor};
use razer_control::curve_editor::{
    make_curve_editor, sort_by_temp, title, CurveEditor, NewRow, RowValues,
};

fn pt(t: u8, r: u16) -> CurvePoint {
    CurvePoint { temp_c: t, rpm: r }
}

fn num(v: f64) -> Binary64 {
    Binary64 { bits: v.to_bits() }
}

fn row(temp: f64, rpm: f64) -> RowValues {
    RowValues { temp: num(temp), rpm: num(rpm) }
}

fn open(initial: &Vec<CurvePoint>) -> (CurveEditor, Vec<NewRow>) {
    make_curve_editor(true, Sensor::Gpu, (num(3500.0), num(5000.0)), initial)
}

#[test]
fn an_editor_shows_its_curve() {
    let (editor, rows) = open(&vec![pt(40, 3500), pt(80, 5000)]);
    assert_eq!(
        rows,
        vec![NewRow { id: 0, point: pt(40, 3500) }, NewRow { id: 1, point: pt(80, 5000) }]
    );
    assert_eq!(editor.rows, vec![0, 1]);
    assert_eq!(editor.next_id, 2);
    assert!(editor.ac);
    assert_eq!(editor.sensor, Sensor::Gpu);
}

#[test]
fn an_editor_without_a_curve_shows_one_row() {
    let (editor, rows) = open(&Vec::new());
    assert_eq!(rows, vec![NewRow { id: 0, point: pt(50, 3500) }]);
    assert_eq!(editor.rows, vec![0]);
}

#[test]
fn titles() {
    assert_eq!(title(Sensor::Cpu), "CPU curve");
    assert_eq!(title(Sensor::Gpu), "GPU curve");
}

#[test]
fn a_new_point_follows_the_last_one() {
    let (mut editor, _) = open(&vec![pt(40, 3500)]);
    let added = editor.add_point(Some(row(40.0, 3650.0)));
    assert_eq!(added, NewRow { id: 1, point: pt(45, 3650) });
    assert_eq!(editor.add_point(Some(row(107.9, 4000.5))).point, pt(110, 4000));
    assert_eq!(editor.add_point(Some(row(110.0, 4000.0))).point, pt(110, 4000));
    assert_eq!(editor.add_point(Some(row(254.0, 4000.0))).point, pt(110, 4000));
    assert_eq!(editor.add_point(None).point, pt(50, 3500));
    assert_eq!(editor.rows, vec![0, 1, 2, 3, 4, 5]);
}

#[test]
fn rows_are_removed_but_for_the_last() {
    let (mut editor, _) = open(&vec![pt(40, 3500), pt(60, 4000), pt(80, 5000)]);
    assert_eq!(editor.remove_row(1), Some(1));
    assert_eq!(editor.rows, vec![0, 2]);
    assert_eq!(editor.remove_row(1), None);
    assert_eq!(editor.remove_row(0), Some(0));
    assert_eq!(editor.remove_row(2), None);
    assert_eq!(editor.rows, vec![2]);
}

#[test]
fn removing_undoes_adding() {
    let (mut editor, _) = open(&vec![pt(40, 3500)]);
    let added = editor.add_row(pt(70, 4000));
    assert_eq!(editor.remove_row(added.id), Some(1));
    assert_eq!(editor.rows, vec![0]);
    assert_eq!(editor.add_row(pt(70, 4000)).id, 2);
}

#[test]
fn a_curve_is_sent_in_order() {
    let (editor, _) = open(&Vec::new());
    let values = vec![
        row(80.0, 5000.0),
        row(40.7, 3500.9),
        row(60.0, 1.0),
        row(60.0, 0.0),
        row(-3.0, 99999.0),
        row(300.0, f64::NAN),
    ];
    let update = editor.push_curve(&values).unwrap();
    assert!(update.ac);
    assert_eq!(update.sensor, Sensor::Gpu);
    assert_eq!(
        update.points,
        vec![pt(0, 65535), pt(40, 3500), pt(60, 1), pt(60, 0), pt(80, 5000), pt(255, 0)]
    );
    assert!(editor.push_curve(&Vec::new()).is_none());
}

#[test]
fn sorting_is_that_of_the_standard_library() {
    let mut state: u64 = 1;
    for n in 0..200 {
        let mut points: Vec<CurvePoint> = Vec::new();
        for i in 0..n % 23 {
            state = state.wrapping_mul(6364136223846793005).wrapping_add(1442695040888963407);
            points.push(pt(((state >> 40) % 7) as u8, i as u16));
        }
        let sorted = sort_by_temp(&points);
        assert_eq!(sort_by_temp(&sorted), sorted);
        points.sort_by_key(|p| p.temp_c);
        assert_eq!(sorted, points);
    }
}

#[test]
fn removing_sends_the_rows_that_are_left() {
    let (mut editor, _) = open(&vec![pt(80, 5000), pt(60, 4000), pt(40, 3500)]);
    let values = vec![row(80.0, 5000.0), row(60.0, 4000.0), row(40.0, 3500.0)];
    assert!(editor.remove_point(7, &values).is_none());
    assert_eq!(editor.rows, vec![0, 1, 2]);
    let (place, update) = editor.remove_point(1, &values).unwrap();
    assert_eq!(place, 1);
    assert!(update.ac);
    assert_eq!(update.sensor, Sensor::Gpu);
    assert_eq!(update.points, vec![pt(40, 3500), pt(80, 5000)]);
    assert_eq!(editor.rows, vec![0, 2]);
    let values = vec![row(90.0, 4800.0), row(40.0, 3500.0)];
    let (place, update) = editor.remove_point(2, &values).unwrap();
    assert_eq!(place, 1);
    assert_eq!(update.points, vec![pt(90, 4800)]);
    assert!(editor.remove_point(0, &vec![row(90.0, 4800.0)]).is_none());
    assert_eq!(editor.rows, vec![0]);
}

#[test]
fn adding_sends_the_new_row_too() {
    let (mut editor, _) = open(&vec![pt(80, 5000), pt(40, 3500)]);
    let values = vec![row(80.0, 5000.0), row(40.0, 3600.0)];
    let next = editor.next_row(&values);
    assert_eq!(next, NewRow { id: 2, point: pt(45, 3600) });
    assert_eq!(editor.rows, vec![0, 1]);
    let (added, update) = editor.append_point(&values, row(45.0, 3600.0));
    assert_eq!(added, next);
    assert!(update.ac);
    assert_eq!(update.sensor, Sensor::Gpu);
    assert_eq!(update.points, vec![pt(40, 3600), pt(45, 3600), pt(80, 5000)]);
    assert_eq!(editor.rows, vec![0, 1, 2]);
    assert_eq!(editor.next_id, 3);
}

#[test]
fn a_new_row_is_sent_as_it_is_shown() {
    let (mut editor, _) = open(&vec![pt(40, 3500)]);
    let (added, update) = editor.append_point(&vec![row(40.0, 3500.0)], row(30.0, 4000.0));
    assert_eq!(added.point, pt(45, 3500));
    assert_eq!(update.points, vec![pt(30, 4000), pt(40, 3500)]);
}

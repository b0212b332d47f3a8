use touch_ui::{
    draw_line, draw_polygon, get_bounds, render, update, view, Color, ColorLayer, CursorModel,
    Model, Pixel, Point, Polygon, TextElement, TextLayer, Widget,
};

fn pt(x: i32, y: i32) -> Point {
    Point { x, y }
}

fn positions(layer: &ColorLayer) -> Vec<(i32, i32)> {
    layer.writes.iter().map(|p| (p.x, p.y)).collect()
}

fn square() -> Vec<Point> {
    vec![pt(10, 10), pt(10, 20), pt(20, 20), pt(20, 10)]
}

#[test]
fn bounds_of_points_on_screen() {
    let b = get_bounds(&[pt(30, 40), pt(10, 90), pt(50, 5)]);
    assert_eq!(b, (pt(10, 5), pt(50, 90)));
}

#[test]
fn bounds_are_clamped_to_screen() {
    let b = get_bounds(&[pt(-100, 500), pt(1000, -3)]);
    assert_eq!(b, (pt(0, 0), pt(479, 271)));
    let far = get_bounds(&[pt(600, 300), pt(700, 400)]);
    assert_eq!(far, (pt(479, 271), pt(479, 271)));
    let negative = get_bounds(&[pt(-600, -300)]);
    assert_eq!(negative, (pt(0, 0), pt(0, 0)));
}

#[test]
fn bounds_of_single_point() {
    assert_eq!(get_bounds(&[pt(7, 8)]), (pt(7, 8), pt(7, 8)));
}

#[test]
fn line_shallow() {
    let mut l = ColorLayer::new();
    draw_line(&mut l, &pt(0, 0), &pt(3, 1), Color::rgb(1, 2, 3));
    assert_eq!(positions(&l), vec![(0, 0), (1, 0), (2, 0), (3, 1)]);
    assert!(l.writes.iter().all(|p| p.color == Color::rgb(1, 2, 3)));
}

#[test]
fn line_steep_backwards() {
    let mut l = ColorLayer::new();
    draw_line(&mut l, &pt(5, 5), &pt(2, 1), Color::rgb(0, 0, 0));
    assert_eq!(positions(&l), vec![(5, 5), (5, 4), (4, 3), (3, 2), (2, 1)]);
}

#[test]
fn line_horizontal_vertical_and_point() {
    let mut l = ColorLayer::new();
    draw_line(&mut l, &pt(4, 2), &pt(1, 2), Color::rgb(0, 0, 0));
    assert_eq!(positions(&l), vec![(4, 2), (3, 2), (2, 2), (1, 2)]);
    let mut v = ColorLayer::new();
    draw_line(&mut v, &pt(0, 0), &pt(0, 2), Color::rgb(0, 0, 0));
    assert_eq!(positions(&v), vec![(0, 0), (0, 1), (0, 2)]);
    let mut d = ColorLayer::new();
    draw_line(&mut d, &pt(7, 7), &pt(7, 7), Color::rgb(0, 0, 0));
    assert_eq!(positions(&d), vec![(7, 7)]);
}

#[test]
fn line_is_connected() {
    let mut l = ColorLayer::new();
    draw_line(&mut l, &pt(-3, 17), &pt(40, -9), Color::rgb(0, 0, 0));
    let ps = positions(&l);
    assert_eq!(ps.first(), Some(&(-3, 17)));
    assert_eq!(ps.last(), Some(&(40, -9)));
    assert_eq!(ps.len(), 44);
    for w in ps.windows(2) {
        assert!((w[0].0 - w[1].0).abs() <= 1 && (w[0].1 - w[1].1).abs() <= 1);
    }
}

#[test]
fn fewer_than_three_points_draw_nothing() {
    let mut l = ColorLayer::new();
    let red = Color::rgb(255, 0, 0);
    draw_polygon(&mut l, &[], red, true);
    draw_polygon(&mut l, &[pt(1, 1)], red, true);
    draw_polygon(&mut l, &[pt(1, 1), pt(30, 40)], red, true);
    draw_polygon(&mut l, &[pt(1, 1), pt(30, 40)], red, false);
    assert!(l.writes.is_empty());
}

#[test]
fn filled_square() {
    let mut l = ColorLayer::new();
    let red = Color::rgba(255, 0, 0, 255);
    draw_polygon(&mut l, &square(), red, true);
    assert_eq!(l.writes.len(), 90);
    let mut expected = Vec::new();
    for y in 11..20 {
        for x in 10..20 {
            expected.push(Pixel { x, y, color: red });
        }
    }
    assert_eq!(l.writes, expected);
    assert!(l.writes.iter().all(|p| (10..20).contains(&p.x) && (10..20).contains(&p.y)));
}

#[test]
fn outline_square() {
    let mut l = ColorLayer::new();
    draw_polygon(&mut l, &square(), Color::rgb(0, 255, 0), false);
    let ps = positions(&l);
    assert_eq!(ps.len(), 44);
    assert_eq!(ps[0], (20, 10));
    assert_eq!(ps[10], (10, 10));
    assert_eq!(ps[11], (10, 10));
    assert_eq!(ps[21], (10, 20));
    assert_eq!(ps[43], (20, 10));
}

#[test]
fn diamond_rows() {
    let mut l = ColorLayer::new();
    let diamond = [pt(50, 40), pt(60, 50), pt(50, 60), pt(40, 50)];
    draw_polygon(&mut l, &diamond, Color::rgb(0, 0, 255), true);
    let row = |y: i32| -> Vec<i32> { l.writes.iter().filter(|p| p.y == y).map(|p| p.x).collect() };
    assert_eq!(row(45), (45..55).collect::<Vec<i32>>());
    assert_eq!(row(50), (40..60).collect::<Vec<i32>>());
    assert_eq!(row(55), (45..55).collect::<Vec<i32>>());
    assert!(row(40).is_empty());
    assert!(row(60).is_empty());
}

#[test]
fn fill_is_clipped_to_screen() {
    let mut l = ColorLayer::new();
    draw_polygon(&mut l, &[pt(-10, -10), pt(-10, 5), pt(5, 5), pt(5, -10)], Color::rgb(9, 9, 9), true);
    assert_eq!(l.writes.len(), 25);
    assert!(l.writes.iter().all(|p| (0..5).contains(&p.x) && (0..5).contains(&p.y)));
}

#[test]
fn concave_polygon_fills_two_spans() {
    let mut l = ColorLayer::new();
    let u = [pt(0, 0), pt(0, 10), pt(30, 10), pt(30, 0), pt(20, 0), pt(20, 5), pt(10, 5), pt(10, 0)];
    draw_polygon(&mut l, &u, Color::rgb(1, 1, 1), true);
    let row2: Vec<i32> = l.writes.iter().filter(|p| p.y == 2).map(|p| p.x).collect();
    let mut expected: Vec<i32> = (0..10).collect();
    expected.extend(20..30);
    assert_eq!(row2, expected);
    let row7: Vec<i32> = l.writes.iter().filter(|p| p.y == 7).map(|p| p.x).collect();
    assert_eq!(row7, (0..30).collect::<Vec<i32>>());
}

fn poly(color: Color) -> Widget {
    Widget::Polygon(Polygon::new(square(), color, true))
}

#[test]
fn redraw_of_equal_widget_writes_nothing() {
    let red = Color::rgb(255, 0, 0);
    let prev = poly(red);
    let cur = poly(red);
    let mut ui = ColorLayer::new();
    let mut text = TextLayer::new();
    cur.draw(Some(&prev), &mut ui, &mut text);
    assert!(ui.writes.is_empty());
    assert!(text.writes.is_empty());
    let t1 = Widget::Text(TextElement::new(3, 4, String::from("hello")));
    let t2 = Widget::Text(TextElement::new(3, 4, String::from("hello")));
    t2.draw(Some(&t1), &mut ui, &mut text);
    assert!(ui.writes.is_empty());
    assert!(text.writes.is_empty());
}

#[test]
fn redraw_of_changed_widget_clears_then_paints() {
    let red = Color::rgb(255, 0, 0);
    let blue = Color::rgb(0, 0, 255);
    let prev = poly(red);
    let cur = poly(blue);
    let mut ui = ColorLayer::new();
    let mut text = TextLayer::new();
    prev.draw(None, &mut ui, &mut text);
    assert_eq!(ui.writes.len(), 90);
    cur.draw(Some(&prev), &mut ui, &mut text);
    assert_eq!(ui.writes.len(), 270);
    let painted = positions(&ui);
    assert_eq!(painted[0..90], painted[90..180]);
    assert_eq!(painted[90..180], painted[180..270]);
    assert!(ui.writes[90..180].iter().all(|p| p.color == Color::transparent()));
    assert!(ui.writes[180..270].iter().all(|p| p.color == blue));
    assert!(text.writes.is_empty());
}

#[test]
fn redraw_over_other_kind_clears_previous() {
    let prev = poly(Color::rgb(255, 0, 0));
    let cur = Widget::Text(TextElement::new(1, 2, String::from("hi")));
    let mut ui = ColorLayer::new();
    let mut text = TextLayer::new();
    cur.draw(Some(&prev), &mut ui, &mut text);
    assert_eq!(ui.writes.len(), 90);
    assert!(ui.writes.iter().all(|p| p.color == Color::transparent()));
    assert_eq!(text.writes.len(), 1);
    assert_eq!((text.writes[0].col, text.writes[0].row), (1, 2));
    assert_eq!(text.writes[0].text, "hi");
    assert!(!text.writes[0].erase);
}

#[test]
fn moved_text_is_erased_and_printed() {
    let prev = Widget::Text(TextElement::new(1, 2, String::from("ab")));
    let cur = Widget::Text(TextElement::new(5, 2, String::from("ab")));
    let mut ui = ColorLayer::new();
    let mut text = TextLayer::new();
    cur.draw(Some(&prev), &mut ui, &mut text);
    assert_eq!(text.writes.len(), 2);
    assert_eq!((text.writes[0].col, text.writes[0].erase), (1, true));
    assert_eq!((text.writes[1].col, text.writes[1].erase), (5, false));
    assert!(ui.writes.is_empty());
}

#[test]
fn widgets_report_no_hits() {
    let p = poly(Color::rgb(0, 0, 0));
    let t = Widget::Text(TextElement::new(0, 0, String::from("x")));
    assert!(!p.is_in_bounding_box(&pt(15, 15)));
    assert!(!t.is_in_bounding_box(&pt(0, 0)));
}

fn model_at(x: i32, y: i32) -> Model {
    Model { p: pt(x, y), r: 20, cursor: CursorModel { first_contact: None, second_contact: None } }
}

#[test]
fn release_of_both_contacts() {
    let mut m = model_at(100, 50);
    m.cursor = CursorModel { first_contact: Some(pt(1, 2)), second_contact: Some(pt(3, 4)) };
    let next = update(m, &[]);
    assert_eq!(next.cursor, CursorModel { first_contact: None, second_contact: None });
    assert_eq!(next.p, pt(100, 50));
    assert_eq!(update(next, &[]), next);
}

#[test]
fn touches_set_contacts_and_move_cursor() {
    let m = model_at(100, 50);
    let one = update(m, &[pt(7, 9)]);
    assert_eq!(one.cursor, CursorModel { first_contact: Some(pt(7, 9)), second_contact: None });
    assert_eq!(one.p, pt(7, 9));
    assert_eq!(one.r, 20);
    let three = update(one, &[pt(1, 1), pt(2, 2), pt(3, 3)]);
    assert_eq!(three.cursor, CursorModel { first_contact: Some(pt(1, 1)), second_contact: Some(pt(2, 2)) });
    assert_eq!(three.p, pt(1, 1));
}

#[test]
fn view_draws_cursor_octagon() {
    let m = model_at(100, 50);
    let frame = view(&m);
    assert_eq!(frame.len(), 1);
    let mut ui = ColorLayer::new();
    let mut text = TextLayer::new();
    render(&frame, &Vec::new(), &mut ui, &mut text);
    assert!(!ui.writes.is_empty());
    assert!(ui.writes.iter().all(|p| p.color == Color::rgb(255, 255, 255)));
    assert!(ui.writes.iter().all(|p| (80..120).contains(&p.x) && (30..70).contains(&p.y)));
    assert!(ui.writes.iter().any(|p| p.x == 100 && p.y == 50));
    let again = view(&m);
    let before = ui.writes.len();
    render(&again, &frame, &mut ui, &mut text);
    assert_eq!(ui.writes.len(), before);
}

#[test]
fn render_moves_cursor() {
    let first = view(&model_at(100, 50));
    let second = view(&model_at(200, 100));
    let mut ui = ColorLayer::new();
    let mut text = TextLayer::new();
    render(&first, &Vec::new(), &mut ui, &mut text);
    let n = ui.writes.len();
    render(&second, &first, &mut ui, &mut text);
    assert_eq!(ui.writes.len(), 3 * n);
    assert!(ui.writes[n..2 * n].iter().all(|p| p.color == Color::transparent()));
    assert!(ui.writes[2 * n..].iter().all(|p| (180..220).contains(&p.x)));
}

#[test]
fn text_layer_records_writes() {
    let mut text = TextLayer::new();
    let t = TextElement::new(2, 3, String::from("abc"));
    t.paint(&mut text);
    t.clear(&mut text);
    assert_eq!(text.writes.len(), 2);
    assert_eq!(text.writes[1].text, "abc");
    assert!(text.writes[1].erase);
}

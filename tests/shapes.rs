use lisp::shapes::Rectangle;

#[test]
fn rectangle_area() {
    let rec = Rectangle::new(2, 3);
    assert_eq!(6, rec.area());
    assert_eq!(6, rec.area());
}

#[test]
fn rectangle_trait() {
    let rec = Rectangle::new(2, 3);
    assert_eq!("2,3", rec.to_string());
}

#[test]
fn rectangle_text_of_larger_numbers() {
    assert_eq!("105,0", Rectangle::new(105, 0).to_string());
    assert_eq!(0, Rectangle::new(105, 0).area());
}

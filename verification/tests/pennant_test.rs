use data_structures::pennant::{log2, Pennant};

#[test]
fn test_combining_two_one_element_pennants() {
    let mut x = Pennant::new("Mercury");
    let y = Pennant::new("Venus");

    x.combine(Box::new(y));

    assert_eq!(x.len(), 2);
    assert_eq!(x.degree(), 1);
    assert_eq!(x.fetch_element(), &"Mercury");
    assert!(x.left().is_none());
    assert!(x.right().is_none());
    assert!(x.middle().is_some());

    let middle = x.middle().unwrap();

    assert_eq!(middle.fetch_element(), &"Venus");
}

#[test]
fn test_combining_two_two_element_pennants() {
    let mut x = Pennant::new("Mercury");
    let y = Pennant::new("Venus");
    x.combine(Box::new(y));

    let mut a = Pennant::new("Earth");
    let b = Pennant::new("Mars");
    a.combine(Box::new(b));

    x.combine(Box::new(a));

    assert_eq!(x.len(), 4);
    assert_eq!(x.degree(), 2);
    assert!(x.left().is_none());
    assert!(x.right().is_none());
    assert!(x.middle().is_some());
    assert_eq!(x.fetch_element(), &"Mercury");

    let middle = x.middle().unwrap();

    assert!(middle.left().is_some());
    assert!(middle.right().is_some());
    assert!(middle.middle().is_none());
    assert_eq!(middle.fetch_element(), &"Earth");

    let left = middle.left().unwrap();
    let right = middle.right().unwrap();

    assert_eq!(left.fetch_element(), &"Venus");
    assert_eq!(right.fetch_element(), &"Mars");
}

#[test]
fn test_combining_two_four_element_pennants() {
    let mut x = Pennant::new("Mercury");
    let y = Pennant::new("Venus");
    x.combine(Box::new(y));

    let mut a = Pennant::new("Earth");
    let b = Pennant::new("Mars");
    a.combine(Box::new(b));

    x.combine(Box::new(a));

    let mut c = Pennant::new("Jupiter");
    let d = Pennant::new("Saturn");
    c.combine(Box::new(d));

    let mut e = Pennant::new("Uranus");
    let f = Pennant::new("Neptune");
    e.combine(Box::new(f));

    c.combine(Box::new(e));
    x.combine(Box::new(c));

    assert_eq!(x.len(), 8);
    assert_eq!(x.degree(), 3);
    assert!(x.left().is_none());
    assert!(x.right().is_none());
    assert!(x.middle().is_some());

    let middle = x.middle().unwrap();

    assert!(middle.left().is_some());
    assert!(middle.right().is_some());
    assert!(middle.middle().is_none());
    assert_eq!(middle.fetch_element(), &"Jupiter");

    let left = middle.left().unwrap();
    let right = middle.right().unwrap();

    assert!(left.left().is_some());
    assert!(left.right().is_some());
    assert!(left.middle().is_none());
    assert!(right.left().is_some());
    assert!(right.right().is_some());
    assert!(right.middle().is_none());
    assert_eq!(left.fetch_element(), &"Earth");
    assert_eq!(right.fetch_element(), &"Uranus");
}

#[test]
fn test_splitting_two_element_pennant() {
    let mut x = Pennant::new("Mercury");
    let y = Pennant::new("Venus");

    x.combine(Box::new(y));

    let split = x.split();
    assert!(split.is_some());

    assert_eq!(x.len(), 1);
    assert_eq!(x.degree(), 0);
    assert!(x.middle().is_none());
    assert_eq!(x.fetch_element(), &"Mercury");

    let split_pennant = split.unwrap();

    assert_eq!(split_pennant.len(), 1);
    assert_eq!(split_pennant.degree(), 0);
    assert!(split_pennant.middle().is_none());
    assert_eq!(split_pennant.fetch_element(), &"Venus");
}

#[test]
fn test_splitting_four_element_pennant() {
    let mut x = Pennant::new("Mercury");
    let y = Pennant::new("Venus");
    x.combine(Box::new(y));

    let mut a = Pennant::new("Earth");
    let b = Pennant::new("Mars");
    a.combine(Box::new(b));

    x.combine(Box::new(a));

    let split = x.split();
    assert!(split.is_some());

    assert_eq!(x.len(), 2);
    assert_eq!(x.degree(), 1);
    assert!(x.middle().is_some());
    assert!(x.left().is_none());
    assert!(x.right().is_none());
    assert_eq!(x.fetch_element(), &"Mercury");

    let middle = x.middle().unwrap();

    assert!(middle.left().is_none());
    assert!(middle.right().is_none());
    assert!(middle.middle().is_none());
    assert_eq!(middle.fetch_element(), &"Venus");

    let split_pennant = split.unwrap();

    assert_eq!(split_pennant.len(), 2);
    assert_eq!(split_pennant.degree(), 1);
    assert!(split_pennant.middle().is_some());
    assert!(split_pennant.left().is_none());
    assert!(split_pennant.right().is_none());
    assert_eq!(split_pennant.fetch_element(), &"Earth");

    let middle = split_pennant.middle().unwrap();

    assert!(middle.left().is_none());
    assert!(middle.right().is_none());
    assert!(middle.middle().is_none());
    assert_eq!(middle.fetch_element(), &"Mars");
}

#[test]
fn test_splitting_eight_element_pennant() {
    let mut x = Pennant::new("Mercury");
    let y = Pennant::new("Venus");
    x.combine(Box::new(y));

    let mut a = Pennant::new("Earth");
    let b = Pennant::new("Mars");
    a.combine(Box::new(b));

    x.combine(Box::new(a));

    let mut c = Pennant::new("Jupiter");
    let d = Pennant::new("Saturn");
    c.combine(Box::new(d));

    let mut e = Pennant::new("Uranus");
    let f = Pennant::new("Neptune");
    e.combine(Box::new(f));

    c.combine(Box::new(e));
    x.combine(Box::new(c));

    let split = x.split();
    assert!(split.is_some());

    assert_eq!(x.len(), 4);
    assert_eq!(x.degree(), 2);
    assert!(x.middle().is_some());
    assert!(x.left().is_none());
    assert!(x.right().is_none());
    assert_eq!(x.fetch_element(), &"Mercury");

    let middle = x.middle().unwrap();

    assert!(middle.left().is_some());
    assert!(middle.right().is_some());
    assert_eq!(middle.fetch_element(), &"Earth");

    let left = middle.left().unwrap();
    let right = middle.right().unwrap();

    assert!(left.left().is_none());
    assert!(left.middle().is_none());
    assert!(left.right().is_none());
    assert_eq!(left.fetch_element(), &"Venus");
    assert_eq!(right.fetch_element(), &"Mars");

    let split_pennant = split.unwrap();

    assert_eq!(split_pennant.len(), 4);
    assert_eq!(split_pennant.degree(), 2);
    assert!(split_pennant.left().is_none());
    assert!(split_pennant.middle().is_some());
    assert!(split_pennant.right().is_none());
    assert_eq!(split_pennant.fetch_element(), &"Jupiter");

    let middle = split_pennant.middle().unwrap();

    assert!(middle.left().is_some());
    assert!(middle.middle().is_none());
    assert!(middle.right().is_some());
    assert_eq!(middle.fetch_element(), &"Uranus");

    let left = middle.left().unwrap();
    let right = middle.right().unwrap();

    assert!(left.left().is_none());
    assert!(left.middle().is_none());
    assert!(left.right().is_none());
    assert_eq!(left.fetch_element(), &"Saturn");
    assert_eq!(right.fetch_element(), &"Neptune");
}

#[test]
fn pennant_new_is_a_single_element() {
    let mut x = Pennant::new(7u8);
    assert_eq!(x.len(), 1);
    assert_eq!(x.degree(), 0);
    assert_eq!(x.k, 0);
    assert!(x.left().is_none() && x.middle().is_none() && x.right().is_none());
    assert!(x.split().is_none());
    assert_eq!(x.len(), 1);
    assert_eq!(x.fetch_element(), &7);
}

#[test]
fn pennant_split_undoes_combine() {
    let mut x = Pennant::new(1);
    x.combine(Box::new(Pennant::new(2)));
    let mut y = Pennant::new(3);
    y.combine(Box::new(Pennant::new(4)));
    x.combine(Box::new(y));
    let y = x.split().unwrap();
    assert_eq!(x.fetch_element(), &1);
    assert_eq!(x.middle().unwrap().fetch_element(), &2);
    assert_eq!(y.fetch_element(), &3);
    assert_eq!(y.middle().unwrap().fetch_element(), &4);
    assert_eq!((x.len(), y.len()), (2, 2));
    assert_eq!((x.degree(), y.degree()), (1, 1));
}

#[test]
fn log2_is_the_whole_part() {
    assert_eq!(log2(1), 0);
    assert_eq!(log2(2), 1);
    assert_eq!(log2(3), 1);
    assert_eq!(log2(4), 2);
    assert_eq!(log2(1023), 9);
    assert_eq!(log2(1024), 10);
    assert_eq!(log2(usize::MAX), (usize::BITS - 1) as i32);
}

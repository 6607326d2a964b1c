use npuzzle::direction::Dir;

#[test]
fn test_values() {
    let values = Dir::values();
    assert_eq!(values.len(), 4);
    assert!(values.contains(&Dir::Down));
    assert!(values.contains(&Dir::Up));
    assert!(values.contains(&Dir::Left));
    assert!(values.contains(&Dir::Right));
}

#[test]
fn test_reverse_is_inverse() {
    assert_eq!(Dir::Up.reverse(), Dir::Down);
    assert_eq!(Dir::Down.reverse(), Dir::Up);
    assert_eq!(Dir::Left.reverse(), Dir::Right);
    assert_eq!(Dir::Right.reverse(), Dir::Left);
    for d in Dir::values() {
        assert_eq!(d.reverse().reverse(), d);
    }
}

#[test]
fn test_char_round_trip() {
    assert_eq!(Dir::Up.to_char(), 'U');
    assert_eq!(Dir::Down.to_char(), 'D');
    assert_eq!(Dir::Left.to_char(), 'L');
    assert_eq!(Dir::Right.to_char(), 'R');
    for d in Dir::values() {
        assert_eq!(Dir::from_char(d.to_char()), Some(d));
    }
    assert_eq!(Dir::from_char('x'), None);
    assert_eq!(Dir::from_char('u'), None);
}

#[test]
fn test_to_dirs_parses_orders() {
    assert_eq!(
        Dir::to_dirs("RDUL"),
        Some([Dir::Right, Dir::Down, Dir::Up, Dir::Left])
    );
    assert_eq!(
        Dir::to_dirs("LUDR"),
        Some([Dir::Left, Dir::Up, Dir::Down, Dir::Right])
    );
    assert_eq!(Dir::to_dirs("RDU"), None);
    assert_eq!(Dir::to_dirs("RDULU"), None);
    assert_eq!(Dir::to_dirs("RDXa"), None);
    assert_eq!(Dir::to_dirs(""), None);
}

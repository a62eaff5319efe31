use tactom::{equal_spaced_evs, init_alphabets, motor_occurrences, stitch_evs, Alphabet, Ev, END_GLYPH};

fn unknown() -> Vec<Ev> {
    vec![Ev::new(0, 0), Ev::new(200, END_GLYPH)]
}

#[test]
fn missing_name_gives_unknown_glyph() {
    let alphabets = init_alphabets();
    let d = alphabets.get("distinguish").unwrap();
    assert_eq!(d.get_other_glyph("no_such_pattern"), unknown().as_slice());
    assert_eq!(d.get_other_glyph(""), unknown().as_slice());
    assert_eq!(d.get_other_glyph("Clockwise"), unknown().as_slice());
}

#[test]
fn missing_character_gives_unknown_glyph() {
    let alphabets = init_alphabets();
    let r = alphabets.get("roud_graff").unwrap();
    assert_eq!(r.get_glyph('\u{e9}'), unknown().as_slice());
    assert_eq!(r.get_glyph('\t'), unknown().as_slice());
    assert_eq!(r.get_glyph('\n'), unknown().as_slice());
    assert_eq!(r.get_glyph('A'), unknown().as_slice());
    assert_eq!(r.get_glyph('~'), unknown().as_slice());
}

#[test]
fn default_alphabet_resolves_everything_to_unknown() {
    let a = Alphabet::default();
    assert_eq!(a.get_glyph(' '), unknown().as_slice());
    assert_eq!(a.get_glyph('z'), unknown().as_slice());
    assert_eq!(a.get_other_glyph("0"), unknown().as_slice());
}

#[test]
fn distinguish_named_glyphs() {
    let alphabets = init_alphabets();
    let d = alphabets.get("distinguish").unwrap();
    assert_eq!(
        d.get_other_glyph("clockwise"),
        equal_spaced_evs(&[0, 1, 2, 3, 7, 11, 10, 9, 8, 4, 0], 30).as_slice()
    );
    assert_eq!(d.get_other_glyph("row1_left"), equal_spaced_evs(&[7, 6, 5, 4], 30).as_slice());
    for i in 0..12u8 {
        assert_eq!(d.get_other_glyph(&i.to_string()), equal_spaced_evs(&[i], 30).as_slice());
    }
    assert_eq!(d.get_glyph('a'), unknown().as_slice());
}

#[test]
fn distinguish_compound_glyphs() {
    let alphabets = init_alphabets();
    let d = alphabets.get("distinguish").unwrap();
    let col0_up = equal_spaced_evs(&[8, 4, 0], 30);
    let col1_down = equal_spaced_evs(&[1, 5, 9], 30);
    let col2_up = equal_spaced_evs(&[10, 6, 2], 30);
    assert_eq!(d.get_other_glyph("N"), stitch_evs(&[&col0_up, &col1_down, &col2_up]).as_slice());
    let zig = d.get_other_glyph("zig");
    let tags: Vec<u8> = zig.iter().map(|e| e.ev_type).collect();
    assert_eq!(tags, vec![0, 1, 2, 3, 7, 6, 5, 4, 8, 9, 10, 11, END_GLYPH]);
    assert_eq!(zig.last().unwrap().ms_time, 360);
}

#[test]
fn roud_graff_letters_and_motors() {
    let alphabets = init_alphabets();
    let r = alphabets.get("roud_graff").unwrap();
    assert_eq!(r.get_glyph('a'), equal_spaced_evs(&[8, 4, 1, 6, 11], 150).as_slice());
    assert_eq!(r.get_glyph('i'), equal_spaced_evs(&[0, 4, 8], 150).as_slice());
    assert_eq!(
        r.get_glyph('z'),
        equal_spaced_evs(&[0, 1, 2, 3, 7, 6, 5, 4, 8, 9, 10, 11], 150).as_slice()
    );
    assert_eq!(r.get_other_glyph("11"), equal_spaced_evs(&[11], 100).as_slice());
    assert_eq!(r.get_other_glyph("clockwise"), unknown().as_slice());
}

#[test]
fn registry_names() {
    let alphabets = init_alphabets();
    assert!(alphabets.get("distinguish").is_some());
    assert!(alphabets.get("roud_graff").is_some());
    assert!(alphabets.get("roudgraff").is_none());
    assert!(alphabets.get("").is_none());
}

#[test]
fn adding_a_named_glyph_replaces_the_old_one() {
    let mut a = Alphabet::default();
    a.add_other_glyph("swipe", equal_spaced_evs(&[0, 1], 30));
    assert_eq!(a.get_other_glyph("swipe"), equal_spaced_evs(&[0, 1], 30).as_slice());
    a.add_other_glyph("swipe", equal_spaced_evs(&[1, 0], 50));
    assert_eq!(a.get_other_glyph("swipe"), equal_spaced_evs(&[1, 0], 50).as_slice());
    a.add_other_glyphs(vec![
        ("up", equal_spaced_evs(&[8, 4], 30)),
        ("up", equal_spaced_evs(&[9, 5], 30)),
        ("down", equal_spaced_evs(&[0, 4], 30)),
    ]);
    assert_eq!(a.get_other_glyph("up"), equal_spaced_evs(&[9, 5], 30).as_slice());
    assert_eq!(a.get_other_glyph("down"), equal_spaced_evs(&[0, 4], 30).as_slice());
    assert_eq!(a.get_other_glyph("swipe"), equal_spaced_evs(&[1, 0], 50).as_slice());
}

#[test]
fn occurrences_per_motor() {
    let g = equal_spaced_evs(&[0, 4, 8, 4, 5], 30);
    let places = motor_occurrences(&g);
    assert_eq!(places.len(), 13);
    assert_eq!(places[0], vec![0]);
    assert_eq!(places[4], vec![1, 3]);
    assert_eq!(places[8], vec![2]);
    assert_eq!(places[5], vec![4]);
    assert_eq!(places[12], vec![5]);
    assert!(places[1].is_empty());
}

#[test]
fn every_lookup_is_a_well_formed_glyph() {
    let alphabets = init_alphabets();
    for name in ["distinguish", "roud_graff"] {
        let a = alphabets.get(name).unwrap();
        let mut glyphs: Vec<&[Ev]> = (' '..='~').map(|c| a.get_glyph(c)).collect();
        for key in ["0", "11", "clockwise", "N", "flipped_N", "zig", "zag", "missing"] {
            glyphs.push(a.get_other_glyph(key));
        }
        for g in glyphs {
            let (last, body) = g.split_last().unwrap();
            assert_eq!(last.ev_type, END_GLYPH);
            assert!(body.iter().all(|e| e.ev_type < END_GLYPH));
            assert!(g.windows(2).all(|w| w[0].ms_time <= w[1].ms_time));
        }
    }
}

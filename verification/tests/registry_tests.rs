//! The label registry: the counter's enumeration, sanitization and
//! anonymous-name generation.

use mzp::registry::{increment, preferred_label_name, Registry};

fn rg_chars(s: &str) -> Vec<char> {
    s.chars().collect()
}

fn rg_str(v: &Vec<char>) -> String {
    v.iter().collect()
}

#[test]
fn test_increment_100() {
    let mut rows: Vec<String> = Vec::new();
    let mut ctr: Vec<char> = Vec::new();
    for _ in 0..10 {
        let mut row: Vec<String> = Vec::new();
        for _ in 0..10 {
            increment(&mut ctr);
            row.push(rg_str(&ctr));
        }
        rows.push(row.join(", "));
    }
    let result = rows.join("\n");
    let expected = "\
_, a, b, c, d, e, f, g, h, i
j, k, l, m, n, o, p, q, r, s
t, u, v, w, x, y, z, __, _a, _b
_c, _d, _e, _f, _g, _h, _i, _j, _k, _l
_m, _n, _o, _p, _q, _r, _s, _t, _u, _v
_w, _x, _y, _z, a_, aa, ab, ac, ad, ae
af, ag, ah, ai, aj, ak, al, am, an, ao
ap, aq, ar, as, at, au, av, aw, ax, ay
az, b_, ba, bb, bc, bd, be, bf, bg, bh
bi, bj, bk, bl, bm, bn, bo, bp, bq, br";
    assert_eq!(result, expected);
}

#[test]
fn test_increment_all_len_3() {
    let num_labels = 27 + 27 * 27 + 27 * 27 * 27;
    let mut ctr: Vec<char> = Vec::new();
    let mut seen: std::collections::HashSet<String> =
        std::collections::HashSet::with_capacity(num_labels);
    for _ in 0..num_labels {
        increment(&mut ctr);
        let s = rg_str(&ctr);
        assert!(!seen.contains(&s));
        assert!(ctr.len() <= 3);
        seen.insert(s);
    }
    increment(&mut ctr);
    assert_eq!(ctr.len(), 4);
}

#[test]
fn test_sanitize_simple() {
    let mut reg = Registry::new();
    let mut results: Vec<String> = Vec::new();
    let inputs = [
        "foo",
        "ns1~foo",
        "ns2~foo",
        "foo.thisloop",
        "foo.thatloop",
        "bar.thisloop",
        "bar.thatloop",
        "foo$1.thisloop",
        "foo$1.thatloop",
        "bar1",
        "bar2",
        "bar123",
        "BAR123",
        "bar456",
        "BAR456",
        "foo2bar",
    ];
    for label in inputs {
        let sanitized = reg.sanitize(&rg_chars(label));
        assert_eq!(sanitized, reg.sanitize(&rg_chars(label)));
        results.push(format!("{:?} => {}", &label, rg_str(&sanitized)));
    }
    let result = results.join("\n");
    let expected = "\
\"foo\" => foo
\"ns1~foo\" => foo_
\"ns2~foo\" => fooa
\"foo.thisloop\" => thisloop
\"foo.thatloop\" => thatloop
\"bar.thisloop\" => thisloop_
\"bar.thatloop\" => thatloop_
\"foo$1.thisloop\" => thisloopa
\"foo$1.thatloop\" => thatloopa
\"bar1\" => bar_
\"bar2\" => bar__
\"bar123\" => bar_a
\"BAR123\" => BAR_a
\"bar456\" => bar_b
\"BAR456\" => BAR_b
\"foo2bar\" => foo_bar";
    assert_eq!(result, expected);
}

#[test]
fn test_gen_anonymous() {
    let mut registry = Registry::new();
    for letter in ["a", "e", "i"] {
        registry.sanitize(&rg_chars(letter));
    }
    let result: Vec<String> = (0..10).map(|_| rg_str(&registry.gen_anonymous())).collect();
    let result = result.join(", ");
    assert_eq!(result, "_, b, c, d, f, g, h, j, k, l");
}

#[test]
fn reserved_name_keeps_its_shape() {
    // `touch` is reserved with an empty suffix: the user's `touch` keeps
    // the name, and a distinct key with the same stem receives a suffix
    let mut reg = Registry::new();
    assert_eq!(rg_str(&reg.sanitize(&rg_chars("touch"))), "touch");
    assert_eq!(rg_str(&reg.sanitize(&rg_chars("ns~touch"))), "touch_");
}

#[test]
fn preferred_stem_collapses_runs() {
    assert_eq!(rg_str(&preferred_label_name(&rg_chars("foo2bar"))), "foo_bar");
    assert_eq!(rg_str(&preferred_label_name(&rg_chars("ns~glob$12.local"))), "local");
    assert_eq!(rg_str(&preferred_label_name(&rg_chars("bar123"))), "bar_");
}

#[test]
fn sanitized_names_are_valid_identifiers() {
    let mut reg = Registry::new();
    for key in ["9lives", "a b c", "x~1.2", "touch", "touch", "UPPER~CASE.Z9"] {
        let name = reg.sanitize(&rg_chars(key));
        for (i, c) in name.iter().enumerate() {
            let ok_anywhere = c.is_ascii_alphabetic() || *c == '_';
            let ok_last = i + 1 == name.len() && c.is_ascii_digit();
            assert!(ok_anywhere || ok_last, "bad char {:?} in {:?}", c, rg_str(&name));
        }
    }
}

#[test]
fn distinct_keys_get_distinct_names() {
    let mut reg = Registry::new();
    let keys = ["foo", "Foo", "ns~foo", "foo.x", "bar.x", "x", "x_", "x__"];
    let mut names: Vec<String> = Vec::new();
    for k in keys {
        names.push(rg_str(&reg.sanitize(&rg_chars(k))).to_ascii_lowercase());
    }
    // `foo` and `Foo` are the same key under case folding
    assert_eq!(names[0], names[1]);
    let mut distinct = names.clone();
    distinct.remove(1);
    let unique: std::collections::HashSet<&String> = distinct.iter().collect();
    assert_eq!(unique.len(), distinct.len());
}

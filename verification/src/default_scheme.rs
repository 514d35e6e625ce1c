//! The built-in padding scheme, and the proof that its text says what its
//! table says.
use crate::padding;
use crate::padding::PaddingScheme;
use crate::padding::SchemeErrorView;
use crate::padding::SchemeTable;
use crate::padding::Segment;
use crate::text;
use vstd::prelude::*;

verus! {

/// The text of the built-in scheme, from the line for write `i` on.
pub open spec fn lines_from(i: nat) -> Seq<char>
    decreases 8 - i,
{
    if i >= 7 {
        rule_line(7)
    } else {
        rule_line(i) + seq!['\n'] + lines_from(i + 1)
    }
}

/// The line of the built-in scheme for write `i`.
pub open spec fn rule_line(i: nat) -> Seq<char> {
    if i == 0 {
        "0=30-30"@
    } else if i == 1 {
        "1=100-400"@
    } else if i == 2 {
        "2=400-500,c,500-1000,c,500-1000,c,500-1000,c,500-1000"@
    } else if i == 3 {
        "3=9-9,500-1000"@
    } else if i == 4 {
        "4=500-1000"@
    } else if i == 5 {
        "5=500-1000"@
    } else if i == 6 {
        "6=500-1000"@
    } else {
        "7=500-1000"@
    }
}

/// The text of the built-in scheme.
pub open spec fn default_text() -> Seq<char> {
    "stop=8"@ + seq!['\n'] + lines_from(0)
}

/// The segments of the built-in rule for write `i`.
pub open spec fn default_rule(i: nat) -> Seq<Segment> {
    if i == 0 {
        seq![Segment::Range(30, 30)]
    } else if i == 1 {
        seq![Segment::Range(100, 400)]
    } else if i == 2 {
        seq![
            Segment::Range(400, 500),
            Segment::Check,
            Segment::Range(500, 1000),
            Segment::Check,
            Segment::Range(500, 1000),
            Segment::Check,
            Segment::Range(500, 1000),
            Segment::Check,
            Segment::Range(500, 1000),
        ]
    } else if i == 3 {
        seq![Segment::Range(9, 9), Segment::Range(500, 1000)]
    } else {
        seq![Segment::Range(500, 1000)]
    }
}

/// The table of the built-in scheme: padding ends at write 8, and each write
/// before it has a rule.
pub open spec fn default_table() -> SchemeTable {
    SchemeTable {
        stop: 8,
        rules: Map::new(|k: u32| k < 8, |k: u32| default_rule(k as nat)),
    }
}

/// The value of one to four digits.
spec fn small_value(s: Seq<char>) -> nat {
    if s.len() == 1 {
        text::digit_value(s[0])
    } else if s.len() == 2 {
        text::digit_value(s[0]) * 10 + text::digit_value(s[1])
    } else if s.len() == 3 {
        (text::digit_value(s[0]) * 10 + text::digit_value(s[1])) * 10 + text::digit_value(s[2])
    } else {
        ((text::digit_value(s[0]) * 10 + text::digit_value(s[1])) * 10 + text::digit_value(s[2]))
            * 10 + text::digit_value(s[3])
    }
}

proof fn lemma_small_number(s: Seq<char>)
    requires
        1 <= s.len() <= 4,
        forall|i: int| 0 <= i < s.len() ==> text::is_digit(#[trigger] s[i]),
    ensures
        text::number(s, 0xFFFF_FFFF) == Ok::<nat, text::NumberError>(small_value(s)),
        text::trim(s) == s,
{
    reveal_with_fuel(text::digits, 5);
    text::lemma_trim_plain(s);
    assert(text::is_digit(s[0]));
    assert(s.skip(1).len() == s.len() - 1);
    if s.len() > 1 {
        assert(s.skip(1)[0] == s[1]);
        assert(text::is_digit(s[1]));
    }
    if s.len() > 2 {
        assert(s.skip(1).skip(1)[0] == s[2]);
        assert(text::is_digit(s[2]));
    }
    if s.len() > 3 {
        assert(s.skip(1).skip(1).skip(1)[0] == s[3]);
        assert(text::is_digit(s[3]));
    }
}

/// Two small numbers with a dash between them spell a range.
proof fn lemma_range(part: Seq<char>, k: int)
    requires
        1 <= k <= 4,
        k + 2 <= part.len() <= k + 5,
        part[k] == '-',
        forall|i: int| 0 <= i < part.len() && i != k ==> text::is_digit(#[trigger] part[i]),
    ensures
        padding::segment_of(text::trim(part)) == Ok::<Segment, SchemeErrorView>(
            Segment::Range(small_value(part.take(k)) as u32, small_value(part.skip(k + 1)) as u32),
        ),
{
    reveal_strlit("c");
    assert(text::is_digit(part[0]));
    assert(text::is_digit(part.last()));
    text::lemma_trim_plain(part);
    assert forall|j: int| 0 <= j < k implies part[j] != '-' by {
        assert(text::is_digit(part[j]));
    }
    text::lemma_find_is(part, '-', k);
    lemma_small_number(part.take(k));
    lemma_small_number(part.skip(k + 1));
}

proof fn lemma_segments_cons(a: Seq<char>, rest: Seq<Seq<char>>, read: Seq<Segment>, s: Segment)
    requires
        padding::segment_of(text::trim(a)) == Ok::<Segment, SchemeErrorView>(s),
    ensures
        padding::segments_of(seq![a] + rest, read) == padding::segments_of(rest, read.push(s)),
{
    assert((seq![a] + rest).skip(1) =~= rest);
}

/// The segments of a text with one segment in front of a comma.
proof fn lemma_first_segment(v: Seq<char>, k: int, read: Seq<Segment>, s: Segment)
    requires
        0 <= k < v.len(),
        v[k] == ',',
        forall|j: int| 0 <= j < k ==> v[j] != ',',
        padding::segment_of(text::trim(v.take(k))) == Ok::<Segment, SchemeErrorView>(s),
    ensures
        padding::segments_of(text::split(v, ','), read) == padding::segments_of(
            text::split(v.skip(k + 1), ','),
            read.push(s),
        ),
{
    text::lemma_find_is(v, ',', k);
    lemma_segments_cons(v.take(k), text::split(v.skip(k + 1), ','), read, s);
}

/// The segments of a text without a comma.
proof fn lemma_last_segment(v: Seq<char>, read: Seq<Segment>, s: Segment)
    requires
        forall|j: int| 0 <= j < v.len() ==> v[j] != ',',
        padding::segment_of(text::trim(v)) == Ok::<Segment, SchemeErrorView>(s),
    ensures
        padding::segments_of(text::split(v, ','), read) == Ok::<Seq<Segment>, SchemeErrorView>(
            read.push(s),
        ),
{
    text::lemma_find_is(v, ',', v.len() as int);
    lemma_segments_cons(v, Seq::empty(), read, s);
    assert(seq![v] + Seq::<Seq<char>>::empty() =~= seq![v]);
}

/// Whether `500-1000` stands in `v` at `i`.
spec fn wide_at(v: Seq<char>, i: int) -> bool {
    &&& v[i] == '5'
    &&& v[i + 1] == '0'
    &&& v[i + 2] == '0'
    &&& v[i + 3] == '-'
    &&& v[i + 4] == '1'
    &&& v[i + 5] == '0'
    &&& v[i + 6] == '0'
    &&& v[i + 7] == '0'
}

proof fn lemma_wide(v: Seq<char>)
    requires
        v.len() == 8,
        wide_at(v, 0),
    ensures
        padding::segment_of(text::trim(v)) == Ok::<Segment, SchemeErrorView>(
            Segment::Range(500, 1000),
        ),
        forall|j: int| 0 <= j < v.len() ==> v[j] != ',',
{
    lemma_range(v, 3);
    assert(small_value(v.take(3)) == 500);
    assert(small_value(v.skip(4)) == 1000);
}

/// The segments of a text that starts with a check symbol and the wide range.
proof fn lemma_check_wide(v: Seq<char>, read: Seq<Segment>)
    requires
        v.len() >= 10,
        v[0] == 'c',
        v[1] == ',',
        wide_at(v, 2),
        v.len() > 10 ==> v[10] == ',',
    ensures
        padding::segments_of(text::split(v, ','), read) == (if v.len() == 10 {
            Ok::<Seq<Segment>, SchemeErrorView>(
                read.push(Segment::Check).push(Segment::Range(500, 1000)),
            )
        } else {
            padding::segments_of(
                text::split(v.skip(11), ','),
                read.push(Segment::Check).push(Segment::Range(500, 1000)),
            )
        }),
{
    reveal_strlit("c");
    assert(v.take(1) =~= "c"@);
    text::lemma_trim_plain("c"@);
    lemma_first_segment(v, 1, read, Segment::Check);
    let w = v.skip(2);
    if v.len() == 10 {
        lemma_wide(w);
        lemma_last_segment(w, read.push(Segment::Check), Segment::Range(500, 1000));
    } else {
        lemma_wide(w.take(8));
        assert forall|j: int| 0 <= j < 8 implies w[j] != ',' by {
            assert(w[j] == w.take(8)[j]);
        }
        lemma_first_segment(w, 8, read.push(Segment::Check), Segment::Range(500, 1000));
        assert(w.skip(9) =~= v.skip(11));
    }
}

/// What a line with a one-digit key adds to the table.
proof fn lemma_rule_line(line: Seq<char>, table: SchemeTable, segs: Seq<Segment>)
    requires
        line.len() > 2,
        text::is_digit(line[0]),
        line[1] == '=',
        !text::is_white_space(line.last()),
        padding::segments_of(text::split(line.skip(2), ','), Seq::empty()) == Ok::<
            Seq<Segment>,
            SchemeErrorView,
        >(segs),
    ensures
        padding::line_entry(text::trim(line), table) == Ok::<SchemeTable, SchemeErrorView>(
            SchemeTable {
                stop: table.stop,
                rules: table.rules.insert(text::digit_value(line[0]) as u32, segs),
            },
        ),
{
    reveal_strlit("stop");
    text::lemma_trim_plain(line);
    text::lemma_find_is(line, '=', 1);
    let key = line.take(1);
    lemma_small_number(key);
    assert(key.len() != "stop"@.len());
}

proof fn lemma_rule(i: nat, table: SchemeTable)
    requires
        i < 8,
    ensures
        padding::line_entry(text::trim(rule_line(i)), table) == Ok::<SchemeTable, SchemeErrorView>(
            SchemeTable {
                stop: table.stop,
                rules: table.rules.insert(i as u32, default_rule(i)),
            },
        ),
        !rule_line(i).contains('\n'),
{
    let line = rule_line(i);
    let none = Seq::<Segment>::empty();
    let wide = Segment::Range(500, 1000);
    if i == 0 {
        reveal_strlit("0=30-30");
        let v = line.skip(2);
        lemma_range(v, 2);
        assert(small_value(v.take(2)) == 30);
        assert(small_value(v.skip(3)) == 30);
        lemma_last_segment(v, none, Segment::Range(30, 30));
    } else if i == 1 {
        reveal_strlit("1=100-400");
        let v = line.skip(2);
        lemma_range(v, 3);
        assert(small_value(v.take(3)) == 100);
        assert(small_value(v.skip(4)) == 400);
        lemma_last_segment(v, none, Segment::Range(100, 400));
    } else if i == 2 {
        lemma_rule_two(table);
    } else if i == 3 {
        reveal_strlit("3=9-9,500-1000");
        let v = line.skip(2);
        lemma_range(v.take(3), 1);
        assert(small_value(v.take(3).take(1)) == 9);
        assert(small_value(v.take(3).skip(2)) == 9);
        lemma_first_segment(v, 3, none, Segment::Range(9, 9));
        lemma_wide(v.skip(4));
        lemma_last_segment(v.skip(4), none.push(Segment::Range(9, 9)), wide);
    } else {
        reveal_strlit("4=500-1000");
        reveal_strlit("5=500-1000");
        reveal_strlit("6=500-1000");
        reveal_strlit("7=500-1000");
        let v = line.skip(2);
        lemma_wide(v);
        lemma_last_segment(v, none, wide);
    }
    if i != 2 {
        if i == 0 {
            assert(none.push(Segment::Range(30, 30)) =~= default_rule(i));
        } else if i == 1 {
            assert(none.push(Segment::Range(100, 400)) =~= default_rule(i));
        } else if i == 3 {
            assert(none.push(Segment::Range(9, 9)).push(wide) =~= default_rule(i));
        } else {
            assert(none.push(wide) =~= default_rule(i));
        }
        lemma_rule_line(line, table, default_rule(i));
    }
}

proof fn lemma_rule_two(table: SchemeTable)
    ensures
        padding::line_entry(text::trim(rule_line(2)), table) == Ok::<SchemeTable, SchemeErrorView>(
            SchemeTable { stop: table.stop, rules: table.rules.insert(2, default_rule(2)) },
        ),
        !rule_line(2).contains('\n'),
{
    let line = rule_line(2);
    let wide = Segment::Range(500, 1000);
    reveal_strlit("2=400-500,c,500-1000,c,500-1000,c,500-1000,c,500-1000");
    let v = line.skip(2);
    let first = v.take(7);
    lemma_range(first, 3);
    assert(small_value(first.take(3)) == 400);
    assert(small_value(first.skip(4)) == 500);
    let s0 = Seq::<Segment>::empty();
    let s1 = s0.push(Segment::Range(400, 500));
    lemma_first_segment(v, 7, s0, Segment::Range(400, 500));
    let w1 = v.skip(8);
    let w2 = w1.skip(11);
    let w3 = w2.skip(11);
    let w4 = w3.skip(11);
    let s2 = s1.push(Segment::Check).push(wide);
    let s3 = s2.push(Segment::Check).push(wide);
    let s4 = s3.push(Segment::Check).push(wide);
    lemma_check_wide(w1, s1);
    lemma_check_wide(w2, s2);
    lemma_check_wide(w3, s3);
    lemma_check_wide(w4, s4);
    assert(s4.push(Segment::Check).push(wide) =~= default_rule(2));
    lemma_rule_line(line, table, default_rule(2));
}

/// `rules` with the built-in rules for write `i` and those behind it.
spec fn filled(i: nat, rules: Map<u32, Seq<Segment>>) -> Map<u32, Seq<Segment>> {
    Map::new(
        |k: u32| rules.contains_key(k) || i <= k < 8,
        |k: u32|
            if i <= k < 8 {
                default_rule(k as nat)
            } else {
                rules[k]
            },
    )
}

proof fn lemma_lines_from(i: nat, table: SchemeTable)
    requires
        i < 8,
    ensures
        padding::entries(text::split(lines_from(i), '\n'), table) == Ok::<
            SchemeTable,
            SchemeErrorView,
        >(SchemeTable { stop: table.stop, rules: filled(i, table.rules) }),
    decreases 8 - i,
{
    reveal_with_fuel(padding::entries, 2);
    let line = rule_line(i);
    lemma_rule(i, table);
    let next = SchemeTable {
        stop: table.stop,
        rules: table.rules.insert(i as u32, default_rule(i)),
    };
    if i == 7 {
        text::lemma_split_single(line, '\n');
        assert(seq![line].skip(1) =~= Seq::<Seq<char>>::empty());
        assert(next.rules =~= filled(i, table.rules));
    } else {
        text::lemma_split_cons(line, '\n', lines_from(i + 1));
        let rest = text::split(lines_from(i + 1), '\n');
        assert((seq![line] + rest).skip(1) =~= rest);
        lemma_lines_from(i + 1, next);
        assert(filled(i + 1, next.rules) =~= filled(i, table.rules));
    }
}

/// The text of the built-in scheme spells the built-in table.
pub proof fn law_default_scheme()
    ensures
        padding::scheme_of(default_text()) == Ok::<SchemeTable, SchemeErrorView>(default_table()),
{
    reveal_strlit("stop=8");
    reveal_strlit("stop");
    let line = "stop=8"@;
    let first = SchemeTable { stop: 8, rules: Map::empty() };
    text::lemma_trim_plain(line);
    text::lemma_find_is(line, '=', 4);
    assert(line.take(4) =~= "stop"@);
    text::lemma_trim_plain("stop"@);
    lemma_small_number(line.skip(5));
    assert(padding::line_entry(text::trim(line), padding::empty_table()) == Ok::<
        SchemeTable,
        SchemeErrorView,
    >(first));
    text::lemma_split_cons(line, '\n', lines_from(0));
    let rest = text::split(lines_from(0), '\n');
    assert((seq![line] + rest).skip(1) =~= rest);
    lemma_lines_from(0, first);
    assert(filled(0, first.rules) =~= default_table().rules);
}

impl PaddingScheme {
    /// The scheme in use unless a server hands out another one.
    pub fn default_scheme() -> (r: PaddingScheme)
        ensures
            r@ == default_table(),
            r.raw@ == default_text(),
    {
        let mut raw: String = "stop=8".to_owned();
        raw.push('\n');
        raw.append("0=30-30");
        assert(raw@ + seq!['\n'] + lines_from(1) =~= default_text());
        raw.push('\n');
        raw.append("1=100-400");
        assert(raw@ + seq!['\n'] + lines_from(2) =~= default_text());
        raw.push('\n');
        raw.append("2=400-500,c,500-1000,c,500-1000,c,500-1000,c,500-1000");
        assert(raw@ + seq!['\n'] + lines_from(3) =~= default_text());
        raw.push('\n');
        raw.append("3=9-9,500-1000");
        assert(raw@ + seq!['\n'] + lines_from(4) =~= default_text());
        raw.push('\n');
        raw.append("4=500-1000");
        assert(raw@ + seq!['\n'] + lines_from(5) =~= default_text());
        raw.push('\n');
        raw.append("5=500-1000");
        assert(raw@ + seq!['\n'] + lines_from(6) =~= default_text());
        raw.push('\n');
        raw.append("6=500-1000");
        assert(raw@ + seq!['\n'] + lines_from(7) =~= default_text());
        raw.push('\n');
        raw.append("7=500-1000");
        assert(raw@ =~= default_text());
        proof {
            law_default_scheme();
        }
        PaddingScheme::parse(raw.as_str()).unwrap()
    }
}

} // verus!

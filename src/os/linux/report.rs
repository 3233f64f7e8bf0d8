//! The report that a configuration is written as, and the law that reading
//! that report gives the configuration back.
use vstd::prelude::*;

use crate::os::linux::{
    apply_line, empty_info, entry_at, entry_index, entry_of, lemma_entry_index,
    lemma_split_concat, lemma_split_single, parse_lines, parse_list, parse_report, unique_numbers,
    upsert, BootInfoView,
};
use crate::text::{
    all_digits, decimal, digit_char, digit_value, digits_value, find, is_digit, is_space, lead,
    lemma_find_at, parse_u32, split, trail, trim,
};

verus! {

/// No character of `s` is `c`.
pub open spec fn free_of(s: Seq<char>, c: char) -> bool {
    forall|j: int| 0 <= j < s.len() ==> s[j] != c
}

/// The pieces joined with `sep` between each two.
pub open spec fn join(pieces: Seq<Seq<char>>, sep: char) -> Seq<char>
    decreases pieces.len(),
{
    if pieces.len() == 0 {
        Seq::empty()
    } else if pieces.len() == 1 {
        pieces[0]
    } else {
        join(pieces.drop_last(), sep) + seq![sep] + pieces.last()
    }
}

pub proof fn lemma_split_join(pieces: Seq<Seq<char>>, sep: char)
    requires
        pieces.len() >= 1,
        forall|i: int| 0 <= i < pieces.len() ==> free_of(#[trigger] pieces[i], sep),
    ensures
        split(join(pieces, sep), sep) == pieces,
    decreases pieces.len(),
{
    if pieces.len() == 1 {
        lemma_split_single(pieces[0], sep);
        assert(seq![pieces[0]] =~= pieces);
    } else {
        let init = pieces.drop_last();
        assert forall|i: int| 0 <= i < init.len() implies free_of(#[trigger] init[i], sep) by {
            assert(init[i] == pieces[i]);
        }
        lemma_split_join(init, sep);
        assert(free_of(pieces[pieces.len() - 1], sep));
        lemma_split_concat(join(init, sep), pieces.last(), sep);
        lemma_split_single(pieces.last(), sep);
        assert(init + seq![pieces.last()] =~= pieces);
    }
}

pub proof fn lemma_digit_char(d: nat)
    requires
        d < 10,
    ensures
        is_digit(digit_char(d)),
        digit_value(digit_char(d)) == d,
{
}

pub proof fn lemma_decimal(n: nat)
    ensures
        decimal(n).len() >= 1,
        all_digits(decimal(n)),
        digits_value(decimal(n)) == n,
    decreases n,
{
    lemma_digit_char(n % 10);
    if n < 10 {
        assert(decimal(n).drop_last() =~= Seq::<char>::empty());
        assert(n % 10 == n);
        assert(digits_value(decimal(n)) == digits_value(decimal(n).drop_last()) * 10 + digit_value(
            decimal(n).last(),
        ));
        assert(digits_value(Seq::<char>::empty()) == 0);
    } else {
        lemma_decimal(n / 10);
        let s = decimal(n);
        assert(s.drop_last() =~= decimal(n / 10));
        assert(all_digits(s)) by {
            assert forall|i: int| 0 <= i < s.len() implies is_digit(#[trigger] s[i]) by {
                if i < s.len() - 1 {
                    assert(s[i] == decimal(n / 10)[i]);
                }
            }
        }
        assert(s.last() == digit_char(n % 10));
        assert(digits_value(s) == digits_value(decimal(n / 10)) * 10 + digit_value(s.last()));
        assert(n == (n / 10) * 10 + n % 10) by (nonlinear_arith);
    }
}

/// A sequence of digits has no whitespace and none of the separators.
pub proof fn lemma_digits_free(s: Seq<char>)
    requires
        all_digits(s),
    ensures
        free_of(s, ':'),
        free_of(s, ','),
        free_of(s, '\n'),
        free_of(s, '\t'),
        forall|j: int| 0 <= j < s.len() ==> !is_space(#[trigger] s[j]),
{
    assert forall|j: int| 0 <= j < s.len() implies !is_space(#[trigger] s[j]) && s[j] != ':' && s[j]
        != ',' && s[j] != '\n' && s[j] != '\t' by {
        assert(is_digit(s[j]));
    }
}

pub proof fn lemma_parse_decimal(n: u32)
    ensures
        parse_u32(decimal(n as nat)) == Some(n),
        trim(decimal(n as nat)) == decimal(n as nat),
{
    lemma_decimal(n as nat);
    let s = decimal(n as nat);
    assert(is_digit(s[0]));
    lemma_digits_free(s);
    lemma_trim_exact(s);
}

/// A string that starts and ends with no whitespace is its own trim.
pub proof fn lemma_trim_exact(s: Seq<char>)
    requires
        s.len() > 0,
        !is_space(s[0]),
        !is_space(s.last()),
    ensures
        trim(s) == s,
{
    assert(lead(s, 0) == 0);
    assert(trail(s, s.len() as int) == s.len());
    assert(s.subrange(0, s.len() as int) =~= s);
}

/// A line `key: value` reads back as its key and its value.
pub proof fn lemma_field_line(k: Seq<char>, v: Seq<char>)
    requires
        k.len() > 0,
        free_of(k, ':'),
        !is_space(k[0]),
        v.len() > 0,
        !is_space(v[0]),
        !is_space(v.last()),
    ensures
        ({
            let l = k + ": "@ + v;
            &&& trim(l) == l
            &&& find(l, ':') == k.len()
            &&& trim(l.take(k.len() as int)) == trim(k)
            &&& trim(l.skip((k.len() + 1) as int)) == v
        }),
{
    reveal_strlit(": ");
    let l = k + ": "@ + v;
    assert(l[0] == k[0]);
    assert(l.last() == v.last());
    lemma_trim_exact(l);
    assert forall|j: int| 0 <= j < k.len() implies l[j] != ':' by {
        assert(l[j] == k[j]);
    }
    assert(l[k.len() as int] == ':');
    lemma_find_at(l, ':', k.len() as int);
    assert(l.take(k.len() as int) =~= k);
    let r = l.skip((k.len() + 1) as int);
    assert(r =~= seq![' '] + v);
    assert(lead(r, 1) == 1);
    assert(lead(r, 0) == 1);
    assert(r.last() == v.last());
    assert(trail(r, r.len() as int) == r.len());
    assert(r.subrange(1, r.len() as int) =~= v);
}


pub proof fn lemma_free_concat(a: Seq<char>, b: Seq<char>, c: char)
    requires
        free_of(a, c),
        free_of(b, c),
    ensures
        free_of(a + b, c),
{
    assert forall|j: int| 0 <= j < (a + b).len() implies (a + b)[j] != c by {
        if j < a.len() {
            assert((a + b)[j] == a[j]);
        } else {
            assert((a + b)[j] == b[j - a.len()]);
        }
    }
}

/// The four field names are distinct.
pub proof fn lemma_keys()
    ensures
        "BootCurrent"@ != "BootNext"@,
        "BootCurrent"@ != "Timeout"@,
        "BootCurrent"@ != "BootOrder"@,
        "BootNext"@ != "Timeout"@,
        "BootNext"@ != "BootOrder"@,
        "Timeout"@ != "BootOrder"@,
        ": "@ == seq![':', ' '],
{
    reveal_strlit("BootCurrent");
    reveal_strlit("BootNext");
    reveal_strlit("Timeout");
    reveal_strlit("BootOrder");
    reveal_strlit(": ");
    assert("BootCurrent"@.len() == 11 && "BootNext"@.len() == 8 && "Timeout"@.len() == 7);
    assert("BootCurrent"@[4] != "BootNext"@[4]);
    assert("BootCurrent"@[0] != "Timeout"@[0]);
}

/// A field name, as the report writes it: letters only.
pub proof fn lemma_key(k: Seq<char>)
    requires
        k == "BootCurrent"@ || k == "BootNext"@ || k == "Timeout"@ || k == "BootOrder"@,
    ensures
        k.len() > 0,
        free_of(k, ':'),
        free_of(k, '\n'),
        !is_space(k[0]),
        !is_space(k.last()),
        trim(k) == k,
{
    reveal_strlit("BootCurrent");
    reveal_strlit("BootNext");
    reveal_strlit("Timeout");
    reveal_strlit("BootOrder");
    assert(k[0] == 'B' || k[0] == 'T');
    assert forall|j: int| 0 <= j < k.len() implies k[j] != ':' && k[j] != '\n' by {
        assert('A' <= k[j] && k[j] <= 'z');
    }
    assert(k.last() == 't' || k.last() == 'r');
    lemma_trim_exact(k);
}

/// `n` in four decimal digits, with leading zeros.
pub open spec fn four_digits(n: nat) -> Seq<char> {
    seq![digit_char(n / 1000 % 10), digit_char(n / 100 % 10), digit_char(n / 10 % 10), digit_char(n % 10)]
}

/// A boot-entry line: `Boot`, the number in four digits, `* `, the label, a
/// tab, and the device path.
pub open spec fn entry_text(e: (u32, Seq<char>), path: Seq<char>) -> Seq<char> {
    "Boot"@ + four_digits(e.0 as nat) + "* "@ + e.1 + seq!['\t'] + path
}

/// What an entry needs to be written as a line and read back: a number of at
/// most four digits, a label of at least one character with no tab, colon or
/// line break, and a device path with no colon or line break that ends in a
/// character other than whitespace.
pub open spec fn writable_entry(e: (u32, Seq<char>), path: Seq<char>) -> bool {
    &&& e.0 <= 9999
    &&& e.1.len() > 0
    &&& free_of(e.1, '\t')
    &&& free_of(e.1, ':')
    &&& free_of(e.1, '\n')
    &&& path.len() > 0
    &&& free_of(path, ':')
    &&& free_of(path, '\n')
    &&& !is_space(path.last())
}

pub proof fn lemma_four_digits(n: nat)
    requires
        n <= 9999,
    ensures
        all_digits(four_digits(n)),
        digits_value(four_digits(n)) == n,
{
    let s = four_digits(n);
    lemma_digit_char(n / 1000 % 10);
    lemma_digit_char(n / 100 % 10);
    lemma_digit_char(n / 10 % 10);
    lemma_digit_char(n % 10);
    assert forall|i: int| 0 <= i < s.len() implies is_digit(#[trigger] s[i]) by {
        assert(i == 0 || i == 1 || i == 2 || i == 3);
    }
    let s3 = s.drop_last();
    let s2 = s3.drop_last();
    let s1 = s2.drop_last();
    let s0 = s1.drop_last();
    assert(s0 =~= Seq::<char>::empty());
    assert(digits_value(s0) == 0);
    assert(digits_value(s1) == n / 1000 % 10);
    assert(digits_value(s2) == (n / 1000 % 10) * 10 + n / 100 % 10);
    assert(digits_value(s3) == ((n / 1000 % 10) * 10 + n / 100 % 10) * 10 + n / 10 % 10);
    assert(digits_value(s) == (((n / 1000 % 10) * 10 + n / 100 % 10) * 10 + n / 10 % 10) * 10 + n
        % 10);
    assert((((n / 1000 % 10) * 10 + n / 100 % 10) * 10 + n / 10 % 10) * 10 + n % 10 == n)
        by (nonlinear_arith)
        requires
            n <= 9999,
    ;
}

/// An entry line reads back as its entry.
pub proof fn lemma_entry_line(e: (u32, Seq<char>), path: Seq<char>)
    requires
        writable_entry(e, path),
    ensures
        ({
            let l = entry_text(e, path);
            &&& trim(l) == l
            &&& find(l, ':') == l.len()
            &&& entry_of(l) == Some(e)
            &&& free_of(l, '\n')
        }),
{
    reveal_strlit("Boot");
    reveal_strlit("* ");
    let d = four_digits(e.0 as nat);
    lemma_four_digits(e.0 as nat);
    lemma_digits_free(d);
    let l = entry_text(e, path);
    let tail = e.1 + seq!['\t'] + path;
    assert(l =~= seq!['B', 'o', 'o', 't'] + d + seq!['*', ' '] + tail);
    assert(l[0] == 'B');
    assert(l.last() == path.last());
    lemma_trim_exact(l);
    assert(free_of(l, ':') && free_of(l, '\n')) by {
        assert forall|j: int| 0 <= j < l.len() implies l[j] != ':' && l[j] != '\n' by {
            if j >= 10 {
                assert(l[j] == tail[j - 10]);
                if j - 10 >= e.1.len() + 1 {
                    assert(tail[j - 10] == path[j - 11 - e.1.len()]);
                } else if j - 10 < e.1.len() {
                    assert(tail[j - 10] == e.1[j - 10]);
                }
            } else if 4 <= j < 8 {
                assert(l[j] == d[j - 4]);
            }
        }
    }
    lemma_find_at(l, ':', l.len() as int);
    assert(l.subrange(4, 8) =~= d);
    let r = l.skip(11);
    assert(r =~= e.1.skip(1) + seq!['\t'] + path);
    assert forall|j: int| 0 <= j < e.1.len() - 1 implies r[j] != '\t' by {
        assert(r[j] == e.1[j + 1]);
    }
    assert(r[e.1.len() - 1] == '\t');
    lemma_find_at(r, '\t', e.1.len() - 1);
    assert(l.subrange(10, (10 + e.1.len()) as int) =~= e.1);
    assert(entry_at(l, 0) == Some(e));
}


/// A boot order written as comma-separated decimals.
pub open spec fn order_text(order: Seq<u32>) -> Seq<char> {
    join(order.map_values(|n: u32| decimal(n as nat)), ',')
}

pub proof fn lemma_join_ends(pieces: Seq<Seq<char>>, sep: char, c: char)
    requires
        pieces.len() >= 1,
        sep != c,
        forall|i: int| 0 <= i < pieces.len() ==> (#[trigger] pieces[i]).len() > 0 && free_of(pieces[i], c),
    ensures
        join(pieces, sep).len() > 0,
        join(pieces, sep)[0] == pieces[0][0],
        join(pieces, sep).last() == pieces.last().last(),
        free_of(join(pieces, sep), c),
    decreases pieces.len(),
{
    if pieces.len() > 1 {
        let init = pieces.drop_last();
        assert forall|i: int| 0 <= i < init.len() implies (#[trigger] init[i]).len() > 0 && free_of(
            init[i],
            c,
        ) by {
            assert(init[i] == pieces[i]);
        }
        lemma_join_ends(init, sep, c);
        assert(pieces[pieces.len() - 1].len() > 0 && free_of(pieces[pieces.len() - 1], c));
        lemma_free_concat(join(init, sep), seq![sep], c);
        lemma_free_concat(join(init, sep) + seq![sep], pieces.last(), c);
        assert(init[0] == pieces[0]);
    }
}

pub proof fn lemma_parse_decimals(order: Seq<u32>)
    ensures
        parse_list(order.map_values(|n: u32| decimal(n as nat))) == Some(order),
    decreases order.len(),
{
    let pieces = order.map_values(|n: u32| decimal(n as nat));
    if order.len() > 0 {
        lemma_parse_decimals(order.drop_last());
        assert(pieces.drop_last() =~= order.drop_last().map_values(|n: u32| decimal(n as nat)));
        lemma_parse_decimals(order.drop_last());
        lemma_parse_decimal(order.last());
        assert(order.drop_last().push(order.last()) =~= order);
    } else {
        assert(order =~= Seq::<u32>::empty());
    }
}

pub proof fn lemma_order_text(order: Seq<u32>)
    requires
        order.len() > 0,
    ensures
        parse_list(split(order_text(order), ',')) == Some(order),
        order_text(order).len() > 0,
        !is_space(order_text(order)[0]),
        !is_space(order_text(order).last()),
        free_of(order_text(order), '\n'),
{
    let pieces = order.map_values(|n: u32| decimal(n as nat));
    assert forall|i: int| 0 <= i < pieces.len() implies (#[trigger] pieces[i]).len() > 0 && free_of(
        pieces[i],
        '\n',
    ) && free_of(pieces[i], ',') && !is_space(pieces[i][0]) && !is_space(pieces[i].last()) by {
        lemma_decimal(order[i] as nat);
        lemma_digits_free(pieces[i]);
    }
    lemma_join_ends(pieces, ',', '\n');
    lemma_split_join(pieces, ',');
    lemma_parse_decimals(order);
    assert(pieces[0].len() > 0 && !is_space(pieces[0][0]));
    assert(pieces[pieces.len() - 1].len() > 0 && !is_space(pieces[pieces.len() - 1].last()));
}


/// A field line: the key, `: `, and the value.
pub open spec fn field_line(key: Seq<char>, value: Seq<char>) -> Seq<char> {
    key + ": "@ + value
}

/// The field lines of a configuration: the current entry, then the next entry
/// and the timeout where they are present, then the boot order where it is
/// not empty.
pub open spec fn field_lines(c: BootInfoView) -> Seq<Seq<char>> {
    seq![field_line("BootCurrent"@, decimal(c.current as nat))] + match c.next {
        Some(n) => seq![field_line("BootNext"@, decimal(n as nat))],
        None => Seq::empty(),
    } + match c.timeout {
        Some(n) => seq![field_line("Timeout"@, decimal(n as nat))],
        None => Seq::empty(),
    } + if c.order.len() > 0 {
        seq![field_line("BootOrder"@, order_text(c.order))]
    } else {
        Seq::empty()
    }
}

/// One line per entry, each with its device path.
pub open spec fn entry_lines(es: Seq<(u32, Seq<char>)>, paths: Seq<Seq<char>>) -> Seq<Seq<char>> {
    Seq::new(es.len(), |i: int| entry_text(es[i], paths[i]))
}

/// The report that writes a configuration: its field lines, then its entry
/// lines, one per line.
pub open spec fn report_text(c: BootInfoView, paths: Seq<Seq<char>>) -> Seq<char> {
    join(field_lines(c) + entry_lines(c.entries, paths), '\n')
}

/// A configuration that a report can carry: distinct entry numbers, and one
/// device path for each entry, which together with it can be written as a line.
pub open spec fn writable(c: BootInfoView, paths: Seq<Seq<char>>) -> bool {
    &&& unique_numbers(c.entries)
    &&& paths.len() == c.entries.len()
    &&& forall|i: int| 0 <= i < c.entries.len() ==> writable_entry(#[trigger] c.entries[i], paths[i])
}

pub proof fn lemma_parse_push(p: Seq<Seq<char>>, l: Seq<char>)
    ensures
        parse_lines(p.push(l)) == match parse_lines(p) {
            Ok(st) => apply_line(st, trim(l)),
            Err(e) => Err(e),
        },
{
    assert(p.push(l).drop_last() =~= p);
}

/// A field line for one of the four keys, with a value that starts and ends
/// with no whitespace.
pub proof fn lemma_apply_field(st: BootInfoView, k: Seq<char>, v: Seq<char>)
    requires
        k == "BootCurrent"@ || k == "BootNext"@ || k == "Timeout"@ || k == "BootOrder"@,
        v.len() > 0,
        !is_space(v[0]),
        !is_space(v.last()),
    ensures
        ({
            let l = field_line(k, v);
            &&& trim(l) == l
            &&& find(l, ':') == k.len()
            &&& trim(l.take(k.len() as int)) == k
            &&& trim(l.skip((k.len() + 1) as int)) == v
            &&& free_of(v, '\n') ==> free_of(l, '\n')
        }),
{
    lemma_keys();
    lemma_key(k);
    lemma_field_line(k, v);
    if free_of(v, '\n') {
        lemma_free_concat(k, ": "@, '\n');
        lemma_free_concat(k + ": "@, v, '\n');
    }
}

/// The field lines read back as the configuration without its entries.
pub proof fn lemma_field_lines(c: BootInfoView)
    ensures
        parse_lines(field_lines(c)) == Ok::<BootInfoView, (Seq<char>, Seq<char>)>(
            BootInfoView { entries: Seq::empty(), ..c },
        ),
        forall|i: int| 0 <= i < field_lines(c).len() ==> free_of(#[trigger] field_lines(c)[i], '\n'),
{
    lemma_keys();
    let cur = field_line("BootCurrent"@, decimal(c.current as nat));
    lemma_parse_decimal(c.current);
    lemma_decimal(c.current as nat);
    lemma_digits_free(decimal(c.current as nat));
    lemma_apply_field(empty_info(), "BootCurrent"@, decimal(c.current as nat));
    let ls_current = seq![cur];
    lemma_parse_push(Seq::empty(), cur);
    assert(Seq::<Seq<char>>::empty().push(cur) =~= ls_current);
    let st1 = BootInfoView { current: c.current, ..empty_info() };
    assert(parse_lines(ls_current) == Ok::<BootInfoView, (Seq<char>, Seq<char>)>(st1));
    let (ls_next, st2) = match c.next {
        Some(n) => {
            let l = field_line("BootNext"@, decimal(n as nat));
            lemma_parse_decimal(n);
            lemma_decimal(n as nat);
            lemma_digits_free(decimal(n as nat));
            lemma_apply_field(st1, "BootNext"@, decimal(n as nat));
            lemma_parse_push(ls_current, l);
            (ls_current.push(l), BootInfoView { next: Some(n), ..st1 })
        },
        None => (ls_current, st1),
    };
    assert(parse_lines(ls_next) == Ok::<BootInfoView, (Seq<char>, Seq<char>)>(st2));
    let (ls_timeout, st3) = match c.timeout {
        Some(n) => {
            let l = field_line("Timeout"@, decimal(n as nat));
            lemma_parse_decimal(n);
            lemma_decimal(n as nat);
            lemma_digits_free(decimal(n as nat));
            lemma_apply_field(st2, "Timeout"@, decimal(n as nat));
            lemma_parse_push(ls_next, l);
            (ls_next.push(l), BootInfoView { timeout: Some(n), ..st2 })
        },
        None => (ls_next, st2),
    };
    assert(parse_lines(ls_timeout) == Ok::<BootInfoView, (Seq<char>, Seq<char>)>(st3));
    let (ls_order, st4) = if c.order.len() > 0 {
        let l = field_line("BootOrder"@, order_text(c.order));
        lemma_order_text(c.order);
        lemma_apply_field(st3, "BootOrder"@, order_text(c.order));
        lemma_parse_push(ls_timeout, l);
        (ls_timeout.push(l), BootInfoView { order: c.order, ..st3 })
    } else {
        assert(c.order =~= Seq::<u32>::empty());
        (ls_timeout, st3)
    };
    assert(parse_lines(ls_order) == Ok::<BootInfoView, (Seq<char>, Seq<char>)>(st4));
    assert(ls_order =~= field_lines(c));
    assert(st4 == BootInfoView { entries: Seq::empty(), ..c });
}


/// The first `k` entry lines, after the field lines, read back as the first
/// `k` entries.
pub proof fn lemma_entry_lines(c: BootInfoView, paths: Seq<Seq<char>>, k: int)
    requires
        writable(c, paths),
        0 <= k <= c.entries.len(),
    ensures
        parse_lines(field_lines(c) + entry_lines(c.entries, paths).take(k)) == Ok::<
            BootInfoView,
            (Seq<char>, Seq<char>),
        >(BootInfoView { entries: c.entries.take(k), ..c }),
    decreases k,
{
    let fl = field_lines(c);
    let el = entry_lines(c.entries, paths);
    if k == 0 {
        lemma_field_lines(c);
        assert(fl + el.take(0) =~= fl);
        assert(c.entries.take(0) =~= Seq::<(u32, Seq<char>)>::empty());
    } else {
        lemma_entry_lines(c, paths, k - 1);
        let e = c.entries[k - 1];
        let l = entry_text(e, paths[k - 1]);
        assert(writable_entry(c.entries[k - 1], paths[k - 1]));
        lemma_entry_line(e, paths[k - 1]);
        assert(fl + el.take(k) =~= (fl + el.take(k - 1)).push(l));
        lemma_parse_push(fl + el.take(k - 1), l);
        let es = c.entries.take(k - 1);
        lemma_entry_index(es, e.0);
        if entry_index(es, e.0) < es.len() {
            assert(es[entry_index(es, e.0) as int] == c.entries[entry_index(es, e.0) as int]);
        }
        assert(upsert(es, e) =~= c.entries.take(k));
    }
}

/// Reading the report that writes a configuration gives the configuration
/// back: the current and next entries, the timeout, the boot order in its
/// order, and the entries with their labels.
pub proof fn lemma_report_round_trip(c: BootInfoView, paths: Seq<Seq<char>>)
    requires
        writable(c, paths),
    ensures
        parse_report(report_text(c, paths)) == Ok::<BootInfoView, (Seq<char>, Seq<char>)>(c),
{
    let fl = field_lines(c);
    let el = entry_lines(c.entries, paths);
    let lines = fl + el;
    lemma_field_lines(c);
    assert forall|i: int| 0 <= i < lines.len() implies free_of(#[trigger] lines[i], '\n') by {
        if i < fl.len() {
            assert(lines[i] == fl[i]);
        } else {
            assert(lines[i] == el[i - fl.len()]);
            assert(writable_entry(c.entries[i - fl.len()], paths[i - fl.len()]));
            lemma_entry_line(c.entries[i - fl.len()], paths[i - fl.len()]);
        }
    }
    lemma_split_join(lines, '\n');
    lemma_entry_lines(c, paths, c.entries.len() as int);
    assert(el.take(c.entries.len() as int) =~= el);
    assert(c.entries.take(c.entries.len() as int) =~= c.entries);
}


/// Where the timeout line stands among the field lines, when there is one.
pub open spec fn timeout_at(c: BootInfoView) -> int {
    if c.next is Some {
        2
    } else {
        1
    }
}

/// Where the boot order line stands among the field lines, when there is one.
pub open spec fn order_at(c: BootInfoView) -> int {
    timeout_at(c) + if c.timeout is Some {
        1int
    } else {
        0
    }
}

/// How many field lines a configuration has.
pub open spec fn fields_len(c: BootInfoView) -> int {
    order_at(c) + if c.order.len() > 0 {
        1int
    } else {
        0
    }
}

/// The lines of the report that writes a configuration.
pub open spec fn report_lines(c: BootInfoView, paths: Seq<Seq<char>>) -> Seq<Seq<char>> {
    field_lines(c) + entry_lines(c.entries, paths)
}

/// `perm` lists each position below `n` exactly once.
pub open spec fn is_permutation(perm: Seq<int>, n: int) -> bool {
    &&& perm.len() == n
    &&& forall|i: int| 0 <= i < n ==> 0 <= #[trigger] perm[i] < n
    &&& forall|i: int, j: int| 0 <= i < n && 0 <= j < n && i != j ==> perm[i] != perm[j]
    &&& forall|j: int| 0 <= j < n ==> #[trigger] present(perm, n, j)
}

/// Position `j` is among the first `k` that `perm` lists.
pub open spec fn present(perm: Seq<int>, k: int, j: int) -> bool {
    exists|i: int| 0 <= i < k && perm[i] == j
}

/// The report's lines taken in the order that `perm` gives.
pub open spec fn reordered(c: BootInfoView, paths: Seq<Seq<char>>, perm: Seq<int>) -> Seq<Seq<char>> {
    Seq::new(perm.len(), |i: int| report_lines(c, paths)[perm[i]])
}

/// What the report line at position `j` does to the configuration read so far.
pub open spec fn line_effect(st: BootInfoView, c: BootInfoView, j: int) -> BootInfoView {
    if j >= fields_len(c) {
        BootInfoView { entries: upsert(st.entries, c.entries[j - fields_len(c)]), ..st }
    } else if j == 0 {
        BootInfoView { current: c.current, ..st }
    } else if c.next is Some && j == 1 {
        BootInfoView { next: c.next, ..st }
    } else if c.timeout is Some && j == timeout_at(c) {
        BootInfoView { timeout: c.timeout, ..st }
    } else {
        BootInfoView { order: c.order, ..st }
    }
}

pub proof fn lemma_field_lines_shape(c: BootInfoView)
    ensures
        field_lines(c).len() == fields_len(c),
        field_lines(c)[0] == field_line("BootCurrent"@, decimal(c.current as nat)),
        c.next is Some ==> field_lines(c)[1] == field_line("BootNext"@, decimal(c.next->0 as nat)),
        c.timeout is Some ==> field_lines(c)[timeout_at(c)] == field_line(
            "Timeout"@,
            decimal(c.timeout->0 as nat),
        ),
        c.order.len() > 0 ==> field_lines(c)[order_at(c)] == field_line(
            "BootOrder"@,
            order_text(c.order),
        ),
{
}

/// Each report line, wherever it stands, does its own part and nothing else.
pub proof fn lemma_report_line(st: BootInfoView, c: BootInfoView, paths: Seq<Seq<char>>, j: int)
    requires
        writable(c, paths),
        0 <= j < report_lines(c, paths).len(),
    ensures
        apply_line(st, trim(report_lines(c, paths)[j])) == Ok::<
            BootInfoView,
            (Seq<char>, Seq<char>),
        >(line_effect(st, c, j)),
        free_of(report_lines(c, paths)[j], '\n'),
{
    lemma_field_lines_shape(c);
    lemma_keys();
    let nf = fields_len(c);
    let rl = report_lines(c, paths);
    if j >= nf {
        assert(rl[j] == entry_text(c.entries[j - nf], paths[j - nf]));
        assert(writable_entry(c.entries[j - nf], paths[j - nf]));
        lemma_entry_line(c.entries[j - nf], paths[j - nf]);
    } else {
        assert(rl[j] == field_lines(c)[j]);
        if j == 0 {
            lemma_parse_decimal(c.current);
            lemma_decimal(c.current as nat);
            lemma_digits_free(decimal(c.current as nat));
            lemma_apply_field(st, "BootCurrent"@, decimal(c.current as nat));
        } else if c.next is Some && j == 1 {
            let n = c.next->0;
            lemma_parse_decimal(n);
            lemma_decimal(n as nat);
            lemma_digits_free(decimal(n as nat));
            lemma_apply_field(st, "BootNext"@, decimal(n as nat));
        } else if c.timeout is Some && j == timeout_at(c) {
            let n = c.timeout->0;
            lemma_parse_decimal(n);
            lemma_decimal(n as nat);
            lemma_digits_free(decimal(n as nat));
            lemma_apply_field(st, "Timeout"@, decimal(n as nat));
        } else {
            assert(c.order.len() > 0 && j == order_at(c));
            lemma_order_text(c.order);
            lemma_apply_field(st, "BootOrder"@, order_text(c.order));
        }
    }
}


/// An entry among those whose lines come in the first `k` of `perm`.
pub open spec fn read_entry(c: BootInfoView, perm: Seq<int>, k: int, e: (u32, Seq<char>)) -> bool {
    exists|i: int|
        0 <= i < k && perm[i] >= fields_len(c) && #[trigger] c.entries[perm[i] - fields_len(c)] == e
}

/// The configuration read from the first `k` lines taken in the order `perm`.
pub open spec fn prefix_state(st: BootInfoView, c: BootInfoView, perm: Seq<int>, k: int) -> bool {
    &&& st.current == (if present(perm, k, 0) {
        c.current
    } else {
        0
    })
    &&& st.next == (if c.next is Some && present(perm, k, 1) {
        c.next
    } else {
        None
    })
    &&& st.timeout == (if c.timeout is Some && present(perm, k, timeout_at(c)) {
        c.timeout
    } else {
        None
    })
    &&& st.order == (if c.order.len() > 0 && present(perm, k, order_at(c)) {
        c.order
    } else {
        Seq::empty()
    })
    &&& unique_numbers(st.entries)
    &&& forall|e: (u32, Seq<char>)| st.entries.contains(e) <==> #[trigger] read_entry(c, perm, k, e)
}

pub proof fn lemma_present_step(perm: Seq<int>, k: int, j: int)
    requires
        0 < k <= perm.len(),
    ensures
        present(perm, k, j) == (present(perm, k - 1, j) || perm[k - 1] == j),
{
    if present(perm, k, j) && perm[k - 1] != j {
        let i = choose|i: int| 0 <= i < k && perm[i] == j;
        assert(i < k - 1);
    }
    if present(perm, k - 1, j) {
        let i = choose|i: int| 0 <= i < k - 1 && perm[i] == j;
        assert(0 <= i < k && perm[i] == j);
    }
    if perm[k - 1] == j {
        assert(0 <= k - 1 < k && perm[k - 1] == j);
    }
}

pub proof fn lemma_reordered_prefix(c: BootInfoView, paths: Seq<Seq<char>>, perm: Seq<int>, k: int)
    requires
        writable(c, paths),
        is_permutation(perm, report_lines(c, paths).len() as int),
        0 <= k <= perm.len(),
    ensures
        parse_lines(reordered(c, paths, perm).take(k)) matches Ok(st) && prefix_state(st, c, perm, k),
    decreases k,
{
    let ls = reordered(c, paths, perm);
    let nf = fields_len(c);
    let n = perm.len() as int;
    lemma_field_lines_shape(c);
    if k == 0 {
        assert(ls.take(0) =~= Seq::<Seq<char>>::empty());
        let st = empty_info();
        assert forall|e: (u32, Seq<char>)| st.entries.contains(e) <==> #[trigger] read_entry(
            c,
            perm,
            k,
            e,
        ) by {}
    } else {
        lemma_reordered_prefix(c, paths, perm, k - 1);
        let st = parse_lines(ls.take(k - 1))->Ok_0;
        let j = perm[k - 1];
        assert(0 <= j < n);
        assert(ls.take(k) =~= ls.take(k - 1).push(report_lines(c, paths)[j]));
        lemma_parse_push(ls.take(k - 1), report_lines(c, paths)[j]);
        lemma_report_line(st, c, paths, j);
        let st2 = line_effect(st, c, j);
        assert(parse_lines(ls.take(k)) == Ok::<BootInfoView, (Seq<char>, Seq<char>)>(st2));
        lemma_present_step(perm, k, 0);
        lemma_present_step(perm, k, 1);
        lemma_present_step(perm, k, timeout_at(c));
        lemma_present_step(perm, k, order_at(c));
        assert forall|e: (u32, Seq<char>)| #[trigger] read_entry(c, perm, k, e) == (read_entry(
            c,
            perm,
            k - 1,
            e,
        ) || (j >= nf && c.entries[j - nf] == e)) by {
            if read_entry(c, perm, k, e) && !(j >= nf && c.entries[j - nf] == e) {
                let i = choose|i: int|
                    0 <= i < k && perm[i] >= nf && #[trigger] c.entries[perm[i] - nf] == e;
                assert(i < k - 1);
            }
            if read_entry(c, perm, k - 1, e) {
                let i = choose|i: int|
                    0 <= i < k - 1 && perm[i] >= nf && #[trigger] c.entries[perm[i] - nf] == e;
                assert(0 <= i < k);
            }
            if j >= nf && c.entries[j - nf] == e {
                assert(0 <= k - 1 < k && perm[k - 1] >= nf && c.entries[perm[k - 1] - nf] == e);
            }
        }
        if j >= nf {
            let f = c.entries[j - nf];
            let es = st.entries;
            lemma_entry_index(es, f.0);
            let x = entry_index(es, f.0);
            // No entry read so far has `f`'s number: each came from another line.
            assert forall|m: int| 0 <= m < es.len() implies es[m].0 != f.0 by {
                assert(es.contains(es[m]));
                assert(read_entry(c, perm, k - 1, es[m]));
                let i = choose|i: int|
                    0 <= i < k - 1 && perm[i] >= nf && #[trigger] c.entries[perm[i] - nf] == es[m];
                assert(perm[i] != perm[k - 1]);
            }
            if x < es.len() {
                assert(es[x as int].0 == f.0);
            }
            assert(st2.entries == es.push(f));
            assert forall|e: (u32, Seq<char>)| st2.entries.contains(e) <==> #[trigger] read_entry(
                c,
                perm,
                k,
                e,
            ) by {
                if st2.entries.contains(e) {
                    let m = choose|m: int| 0 <= m < st2.entries.len() && st2.entries[m] == e;
                    if m < es.len() {
                        assert(es[m] == e);
                        assert(es.contains(e));
                    }
                }
                if es.contains(e) {
                    let m = choose|m: int| 0 <= m < es.len() && es[m] == e;
                    assert(st2.entries[m] == e);
                }
                if e == f {
                    assert(st2.entries[es.len() as int] == e);
                }
            }
        } else {
            assert(st2.entries == st.entries);
        }
    }
}

/// Reading the report lines of a configuration, taken in any order, gives the
/// configuration back: its current and next entries, its timeout and its boot
/// order as they are, and the same entries (as a set, and as many).
pub proof fn lemma_report_round_trip_any_order(c: BootInfoView, paths: Seq<Seq<char>>, perm: Seq<int>)
    requires
        writable(c, paths),
        is_permutation(perm, report_lines(c, paths).len() as int),
    ensures
        parse_report(join(reordered(c, paths, perm), '\n')) matches Ok(b) && b.current == c.current
            && b.next == c.next && b.timeout == c.timeout && b.order == c.order
            && b.entries.to_set() == c.entries.to_set() && b.entries.len() == c.entries.len(),
{
    let ls = reordered(c, paths, perm);
    let n = perm.len() as int;
    let nf = fields_len(c);
    lemma_field_lines_shape(c);
    assert forall|i: int| 0 <= i < ls.len() implies free_of(#[trigger] ls[i], '\n') by {
        lemma_report_line(empty_info(), c, paths, perm[i]);
    }
    lemma_split_join(ls, '\n');
    lemma_reordered_prefix(c, paths, perm, n);
    assert(ls.take(n) =~= ls);
    let b = parse_lines(ls)->Ok_0;
    assert(present(perm, n, 0));
    if c.next is Some {
        assert(present(perm, n, 1));
    }
    if c.timeout is Some {
        assert(present(perm, n, timeout_at(c)));
    }
    if c.order.len() > 0 {
        assert(present(perm, n, order_at(c)));
    } else {
        assert(c.order =~= Seq::<u32>::empty());
    }
    assert forall|e: (u32, Seq<char>)| b.entries.to_set().contains(e) <==> c.entries.to_set().contains(
        e,
    ) by {
        if b.entries.contains(e) {
            assert(read_entry(c, perm, n, e));
            let i = choose|i: int|
                0 <= i < n && perm[i] >= nf && #[trigger] c.entries[perm[i] - nf] == e;
            assert(c.entries.contains(e));
        }
        if c.entries.contains(e) {
            let m = choose|m: int| 0 <= m < c.entries.len() && c.entries[m] == e;
            assert(present(perm, n, nf + m));
            let i = choose|i: int| 0 <= i < n && perm[i] == nf + m;
            assert(c.entries[perm[i] - nf] == e);
            assert(read_entry(c, perm, n, e));
        }
    }
    assert(b.entries.to_set() =~= c.entries.to_set());
    assert(b.entries.no_duplicates());
    assert(c.entries.no_duplicates());
    b.entries.unique_seq_to_set();
    c.entries.unique_seq_to_set();
}

} // verus!

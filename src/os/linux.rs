//! The boot configuration that the firmware boot manager reports, and the
//! parser that reads it from the manager's line-oriented text.
use vstd::prelude::*;
use vstd::string::{StrSliceExecFns, StringExecFns};

use crate::text::{
    all_digits, chars_of, decimal, digits_value, find, find_range, is_space, lead, lemma_trail_le,
    parse_u32, parse_u32_range, push_decimal, range_is, split, trim, trim_range,
};

pub mod report;

verus! {

/// A firmware boot option: its number and its label.
#[derive(Debug)]
pub struct BootEntry {
    pub boot_num: u32,
    pub boot_label: String,
}

impl View for BootEntry {
    type V = (u32, Seq<char>);

    open spec fn view(&self) -> (u32, Seq<char>) {
        (self.boot_num, self.boot_label@)
    }
}

/// The boot configuration as the boot manager reports it.
#[derive(Debug)]
pub struct BootInfo {
    pub boot_next: Option<u32>,
    pub boot_current: u32,
    pub timeout: Option<u32>,
    pub boot_order: Vec<u32>,
    pub boot_entries: Vec<BootEntry>,
}

/// The mathematical content of a `BootInfo`; entries are (number, label) pairs
/// in the order in which the report first names them.
pub ghost struct BootInfoView {
    pub current: u32,
    pub next: Option<u32>,
    pub timeout: Option<u32>,
    pub order: Seq<u32>,
    pub entries: Seq<(u32, Seq<char>)>,
}

impl View for BootInfo {
    type V = BootInfoView;

    open spec fn view(&self) -> BootInfoView {
        BootInfoView {
            current: self.boot_current,
            next: self.boot_next,
            timeout: self.timeout,
            order: self.boot_order@,
            entries: self.boot_entries@.map_values(|e: BootEntry| e@),
        }
    }
}

/// A recognised field whose value does not follow its grammar.
#[derive(Debug)]
pub enum ParseError {
    MalformedField { key: String, value: String },
}

impl View for ParseError {
    type V = (Seq<char>, Seq<char>);

    open spec fn view(&self) -> (Seq<char>, Seq<char>) {
        match self {
            ParseError::MalformedField { key, value } => (key@, value@),
        }
    }
}

/// What a parse yields: a configuration, or the key and value of a malformed field.
pub type Parsed = Result<BootInfoView, (Seq<char>, Seq<char>)>;

pub open spec fn empty_info() -> BootInfoView {
    BootInfoView {
        current: 0,
        next: None,
        timeout: None,
        order: Seq::empty(),
        entries: Seq::empty(),
    }
}

/// No two entries share a number.
pub open spec fn unique_numbers(es: Seq<(u32, Seq<char>)>) -> bool {
    forall|i: int, j: int|
        0 <= i < es.len() && 0 <= j < es.len() && i != j ==> es[i].0 != es[j].0
}

/// Index of the first entry numbered `n`, or the length when there is none.
pub open spec fn entry_index(es: Seq<(u32, Seq<char>)>, n: u32) -> nat
    decreases es.len(),
{
    if es.len() == 0 {
        0
    } else if es[0].0 == n {
        0
    } else {
        1 + entry_index(es.drop_first(), n)
    }
}

/// `es` with entry `e` put in: a label replaced where its number is present,
/// else the entry added at the end.
pub open spec fn upsert(es: Seq<(u32, Seq<char>)>, e: (u32, Seq<char>)) -> Seq<(u32, Seq<char>)> {
    let j = entry_index(es, e.0);
    if j < es.len() {
        es.update(j as int, e)
    } else {
        es.push(e)
    }
}

/// A boot-entry line that starts at `i`: `Boot`, four ASCII digits, `*`, a
/// space, a label of at least one character, and the first tab after it.
pub open spec fn entry_at(line: Seq<char>, i: int) -> Option<(u32, Seq<char>)> {
    if 0 <= i && i + 11 <= line.len() && line[i] == 'B' && line[i + 1] == 'o' && line[i + 2] == 'o'
        && line[i + 3] == 't' && all_digits(line.subrange(i + 4, i + 8)) && line[i + 8] == '*'
        && line[i + 9] == ' ' && find(line.skip(i + 11), '\t') < line.len() - (i + 11) {
        let end = i + 11 + find(line.skip(i + 11), '\t');
        Some((digits_value(line.subrange(i + 4, i + 8)) as u32, line.subrange(i + 10, end)))
    } else {
        None
    }
}

/// The leftmost boot entry that starts at or after `i`.
pub open spec fn entry_from(line: Seq<char>, i: int) -> Option<(u32, Seq<char>)>
    decreases line.len() - i,
{
    if 0 <= i < line.len() {
        match entry_at(line, i) {
            Some(e) => Some(e),
            None => entry_from(line, i + 1),
        }
    } else {
        None
    }
}

pub open spec fn entry_of(line: Seq<char>) -> Option<(u32, Seq<char>)> {
    entry_from(line, 0)
}

/// The numbers of a comma-separated list, each piece trimmed.
pub open spec fn parse_list(pieces: Seq<Seq<char>>) -> Option<Seq<u32>>
    decreases pieces.len(),
{
    if pieces.len() == 0 {
        Some(Seq::empty())
    } else {
        match parse_list(pieces.drop_last()) {
            Some(ns) => match parse_u32(trim(pieces.last())) {
                Some(n) => Some(ns.push(n)),
                None => None,
            },
            None => None,
        }
    }
}

/// What one trimmed line does to the configuration read so far.
pub open spec fn apply_line(st: BootInfoView, line: Seq<char>) -> Parsed {
    let c = find(line, ':');
    if c < line.len() {
        let key = trim(line.take(c as int));
        let value = trim(line.skip((c + 1) as int));
        if key == "BootNext"@ {
            match parse_u32(value) {
                Some(n) => Ok(BootInfoView { next: Some(n), ..st }),
                None => Err((key, value)),
            }
        } else if key == "BootCurrent"@ {
            match parse_u32(value) {
                Some(n) => Ok(BootInfoView { current: n, ..st }),
                None => Err((key, value)),
            }
        } else if key == "Timeout"@ {
            match parse_u32(value) {
                Some(n) => Ok(BootInfoView { timeout: Some(n), ..st }),
                None => Err((key, value)),
            }
        } else if key == "BootOrder"@ {
            match parse_list(split(value, ',')) {
                Some(ns) => Ok(BootInfoView { order: ns, ..st }),
                None => Err((key, value)),
            }
        } else {
            Ok(st)
        }
    } else {
        match entry_of(line) {
            Some(e) => Ok(BootInfoView { entries: upsert(st.entries, e), ..st }),
            None => Ok(st),
        }
    }
}

/// The configuration that a sequence of lines describes, read in order.
pub open spec fn parse_lines(lines: Seq<Seq<char>>) -> Parsed
    decreases lines.len(),
{
    if lines.len() == 0 {
        Ok(empty_info())
    } else {
        match parse_lines(lines.drop_last()) {
            Ok(st) => apply_line(st, trim(lines.last())),
            Err(e) => Err(e),
        }
    }
}

/// The configuration that a boot manager report describes.
pub open spec fn parse_report(text: Seq<char>) -> Parsed {
    parse_lines(split(text, '\n'))
}

pub proof fn lemma_entry_index(es: Seq<(u32, Seq<char>)>, n: u32)
    ensures
        entry_index(es, n) <= es.len(),
        forall|j: int| 0 <= j < entry_index(es, n) ==> es[j].0 != n,
        entry_index(es, n) < es.len() ==> es[entry_index(es, n) as int].0 == n,
    decreases es.len(),
{
    if es.len() > 0 && es[0].0 != n {
        lemma_entry_index(es.drop_first(), n);
        assert forall|j: int| 0 <= j < entry_index(es, n) implies es[j].0 != n by {
            if j > 0 {
                assert(es[j] == es.drop_first()[j - 1]);
            }
        }
    }
}

pub proof fn lemma_upsert_unique(es: Seq<(u32, Seq<char>)>, e: (u32, Seq<char>))
    requires
        unique_numbers(es),
    ensures
        unique_numbers(upsert(es, e)),
{
    lemma_entry_index(es, e.0);
}

impl BootInfo {
    /// The configuration before any line is read.
    pub fn new() -> (r: BootInfo)
        ensures
            r@ == empty_info(),
    {
        let r = BootInfo {
            boot_next: None,
            boot_current: 0,
            timeout: None,
            boot_order: Vec::new(),
            boot_entries: Vec::new(),
        };
        assert(r@.entries =~= Seq::<(u32, Seq<char>)>::empty());
        r
    }
}


pub proof fn lemma_parse_lines_err(p: Seq<Seq<char>>, q: Seq<Seq<char>>)
    requires
        parse_lines(p) is Err,
    ensures
        parse_lines(p + q) == parse_lines(p),
    decreases q.len(),
{
    if q.len() == 0 {
        assert(p + q =~= p);
    } else {
        lemma_parse_lines_err(p, q.drop_last());
        assert((p + q).drop_last() =~= p + q.drop_last());
    }
}

pub proof fn lemma_parse_list_none(p: Seq<Seq<char>>, q: Seq<Seq<char>>)
    requires
        parse_list(p) is None,
    ensures
        parse_list(p + q) is None,
    decreases q.len(),
{
    if q.len() == 0 {
        assert(p + q =~= p);
    } else {
        lemma_parse_list_none(p, q.drop_last());
        assert((p + q).drop_last() =~= p + q.drop_last());
    }
}

/// Whether a boot entry starts at `p` in the line `t[from..to]`; on success the
/// number and the range of the label.
fn entry_at_pos(t: &Vec<char>, from: usize, to: usize, p: usize) -> (r: Option<(u32, usize, usize)>)
    requires
        from <= p <= to <= t.len(),
    ensures
        match entry_at(t@.subrange(from as int, to as int), p - from) {
            Some(e) => r matches Some(x) && x.0 == e.0 && from <= x.1 <= x.2 <= to && t@.subrange(
                x.1 as int,
                x.2 as int,
            ) == e.1,
            None => r is None,
        },
{
    let ghost line = t@.subrange(from as int, to as int);
    let ghost i = p - from;
    if to - p < 11 {
        return None;
    }
    assert forall|k: int| 0 <= k < 11 implies #[trigger] line[i + k] == t@[p + k] by {}
    if !(t[p] == 'B' && t[p + 1] == 'o' && t[p + 2] == 'o' && t[p + 3] == 't' && t[p + 8] == '*'
        && t[p + 9] == ' ') {
        return None;
    }
    let ghost ds = line.subrange(i + 4, i + 8);
    assert(ds =~= t@.subrange(p + 4, p + 8));
    let d0 = t[p + 4];
    let d1 = t[p + 5];
    let d2 = t[p + 6];
    let d3 = t[p + 7];
    if !('0' <= d0 && d0 <= '9' && '0' <= d1 && d1 <= '9' && '0' <= d2 && d2 <= '9' && '0' <= d3
        && d3 <= '9') {
        assert(!all_digits(ds)) by {
            assert(ds[0] == d0 && ds[1] == d1 && ds[2] == d2 && ds[3] == d3);
        }
        return None;
    }
    assert(all_digits(ds)) by {
        assert(ds[0] == d0 && ds[1] == d1 && ds[2] == d2 && ds[3] == d3);
    }
    let n: u32 = (d0 as u32 - '0' as u32) * 1000 + (d1 as u32 - '0' as u32) * 100 + (d2 as u32
        - '0' as u32) * 10 + (d3 as u32 - '0' as u32);
    proof {
        let s3 = ds.drop_last();
        let s2 = s3.drop_last();
        let s1 = s2.drop_last();
        let s0 = s1.drop_last();
        assert(s0.len() == 0);
        assert(s1.last() == d0 && s2.last() == d1 && s3.last() == d2 && ds.last() == d3);
        assert(digits_value(s0) == 0);
        assert(digits_value(s1) == digits_value(s0) * 10 + (d0 as int - '0' as int));
        assert(digits_value(s2) == digits_value(s1) * 10 + (d1 as int - '0' as int));
        assert(digits_value(s3) == digits_value(s2) * 10 + (d2 as int - '0' as int));
        assert(digits_value(ds) == digits_value(s3) * 10 + (d3 as int - '0' as int));
    }
    let end = find_range(t, p + 11, to, '\t');
    assert(line.skip(i + 11) =~= t@.subrange(p + 11, to as int));
    if end < to {
        assert(line.subrange(i + 10, i + 11 + find(line.skip(i + 11), '\t')) =~= t@.subrange(
            p + 10,
            end as int,
        ));
        Some((n, p + 10, end))
    } else {
        None
    }
}

/// The leftmost boot entry in the line `t[from..to]`.
fn entry_in(t: &Vec<char>, from: usize, to: usize) -> (r: Option<(u32, usize, usize)>)
    requires
        from <= to <= t.len(),
    ensures
        match entry_of(t@.subrange(from as int, to as int)) {
            Some(e) => r matches Some(x) && x.0 == e.0 && from <= x.1 <= x.2 <= to && t@.subrange(
                x.1 as int,
                x.2 as int,
            ) == e.1,
            None => r is None,
        },
{
    let ghost line = t@.subrange(from as int, to as int);
    let mut p: usize = from;
    while p < to
        invariant
            from <= p <= to <= t.len(),
            line == t@.subrange(from as int, to as int),
            entry_of(line) == entry_from(line, p - from),
        decreases to - p,
    {
        let r = entry_at_pos(t, from, to, p);
        if r.is_some() {
            return r;
        }
        p = p + 1;
    }
    None
}

/// The numbers of the comma-separated list `t[from..to]`.
fn parse_list_range(t: &Vec<char>, from: usize, to: usize) -> (r: Option<Vec<u32>>)
    requires
        from <= to <= t.len(),
    ensures
        match parse_list(split(t@.subrange(from as int, to as int), ',')) {
            Some(ns) => r matches Some(v) && v@ == ns,
            None => r is None,
        },
{
    let ghost all = split(t@.subrange(from as int, to as int), ',');
    let ghost mut done: Seq<Seq<char>> = Seq::empty();
    let mut v: Vec<u32> = Vec::new();
    let mut pos: usize = from;
    assert(done + all =~= all);
    loop
        invariant
            from <= pos <= to <= t.len(),
            all == split(t@.subrange(from as int, to as int), ','),
            all == done + split(t@.subrange(pos as int, to as int), ','),
            parse_list(done) == Some(v@),
        decreases to - pos,
    {
        let k = find_range(t, pos, to, ',');
        proof {
            crate::text::lemma_split_step(t@, pos as int, to as int, k as int, ',');
        }
        let ghost piece = t@.subrange(pos as int, k as int);
        let (a, b) = trim_range(t, pos, k);
        let ghost next = done.push(piece);
        assert(next.drop_last() =~= done);
        match parse_u32_range(t, a, b) {
            None => {
                proof {
                    if k < to {
                        assert(all =~= next + split(t@.subrange(k + 1, to as int), ','));
                        lemma_parse_list_none(next, split(t@.subrange(k + 1, to as int), ','));
                    } else {
                        assert(all =~= next);
                    }
                }
                return None;
            },
            Some(n) => {
                v.push(n);
            },
        }
        proof {
            done = next;
        }
        if k == to {
            assert(all =~= done);
            return Some(v);
        }
        assert(all =~= done + split(t@.subrange(k + 1, to as int), ','));
        pos = k + 1;
    }
}

impl BootInfo {
    /// Puts entry `e` in: the label of an entry with its number is replaced,
    /// else the entry is added at the end.
    pub(crate) fn upsert_entry(&mut self, e: BootEntry)
        ensures
            final(self)@ == (BootInfoView { entries: upsert(old(self)@.entries, e@), ..old(self)@ }),
    {
        let ghost es = old(self)@.entries;
        let n = e.boot_num;
        let mut j: usize = 0;
        while j < self.boot_entries.len()
            invariant
                self@ == old(self)@,
                es == old(self)@.entries,
                n == e.boot_num,
                j <= self.boot_entries.len(),
                forall|k: int| 0 <= k < j ==> es[k].0 != n,
            decreases self.boot_entries.len() - j,
        {
            if self.boot_entries[j].boot_num == n {
                assert(es[j as int] == self.boot_entries@[j as int]@);
                proof {
                    lemma_entry_index(es, n);
                }
                assert(entry_index(es, n) == j);
                let ghost ev = (e.boot_num, e.boot_label@);
                let ghost before = self.boot_entries@;
                self.boot_entries.set(j, e);
                assert(self.boot_entries@ == before.update(j as int, e));
                assert(es.len() == before.len());
                assert(ev.0 == n);
                assert(entry_index(es, ev.0) == j);
                assert(upsert(es, ev) == es.update(j as int, ev));
                assert forall|k: int| 0 <= k < es.len() implies #[trigger] self@.entries[k] == upsert(
                    es,
                    ev,
                )[k] by {
                    assert(self@.entries[k] == self.boot_entries@[k]@);
                    assert(es[k] == before[k]@);
                    if k == j {
                        assert(self.boot_entries@[k] == e);
                    }
                }
                assert(self@.entries =~= upsert(es, ev));
                return;
            }
            assert(es[j as int] == self.boot_entries@[j as int]@);
            j = j + 1;
        }
        proof {
            lemma_entry_index(es, n);
        }
        self.boot_entries.push(e);
        assert(self@.entries =~= upsert(es, e@));
    }
}


fn malformed(data: &str, ka: usize, kb: usize, va: usize, vb: usize) -> (r: ParseError)
    requires
        ka <= kb <= data@.len(),
        va <= vb <= data@.len(),
    ensures
        r@ == (data@.subrange(ka as int, kb as int), data@.subrange(va as int, vb as int)),
{
    ParseError::MalformedField {
        key: data.substring_char(ka, kb).to_owned(),
        value: data.substring_char(va, vb).to_owned(),
    }
}

/// Applies the trimmed line `t[from..to]` of the report `data` to `boot_info`.
fn process_line(boot_info: &mut BootInfo, t: &Vec<char>, data: &str, from: usize, to: usize) -> (r:
    Result<(), ParseError>)
    requires
        t@ == data@,
        from <= to <= t.len(),
    ensures
        match apply_line(old(boot_info)@, t@.subrange(from as int, to as int)) {
            Ok(st) => r is Ok && final(boot_info)@ == st,
            Err(e) => r matches Err(x) && x@ == e && final(boot_info)@ == old(boot_info)@,
        },
{
    let ghost line = t@.subrange(from as int, to as int);
    let c = find_range(t, from, to, ':');
    if c < to {
        let (ka, kb) = trim_range(t, from, c);
        let (va, vb) = trim_range(t, c + 1, to);
        assert(line.take(c - from) =~= t@.subrange(from as int, c as int));
        assert(line.skip(c - from + 1) =~= t@.subrange(c + 1, to as int));
        if range_is(t, ka, kb, "BootNext") {
            match parse_u32_range(t, va, vb) {
                Some(n) => {
                    boot_info.boot_next = Some(n);
                    Ok(())
                },
                None => Err(malformed(data, ka, kb, va, vb)),
            }
        } else if range_is(t, ka, kb, "BootCurrent") {
            match parse_u32_range(t, va, vb) {
                Some(n) => {
                    boot_info.boot_current = n;
                    Ok(())
                },
                None => Err(malformed(data, ka, kb, va, vb)),
            }
        } else if range_is(t, ka, kb, "Timeout") {
            match parse_u32_range(t, va, vb) {
                Some(n) => {
                    boot_info.timeout = Some(n);
                    Ok(())
                },
                None => Err(malformed(data, ka, kb, va, vb)),
            }
        } else if range_is(t, ka, kb, "BootOrder") {
            match parse_list_range(t, va, vb) {
                Some(ns) => {
                    boot_info.boot_order = ns;
                    Ok(())
                },
                None => Err(malformed(data, ka, kb, va, vb)),
            }
        } else {
            Ok(())
        }
    } else {
        match entry_in(t, from, to) {
            Some((n, la, lb)) => {
                let label = data.substring_char(la, lb).to_owned();
                boot_info.upsert_entry(BootEntry { boot_num: n, boot_label: label });
                Ok(())
            },
            None => Ok(()),
        }
    }
}

/// Reads a boot manager report: each line is trimmed, blank lines are skipped,
/// recognised fields and boot-entry lines are applied in order, and anything
/// else is passed over.
pub fn get_boot_info_from_str(data: &str) -> (r: Result<BootInfo, ParseError>)
    ensures
        match parse_report(data@) {
            Ok(v) => r matches Ok(info) && info@ == v,
            Err(e) => r matches Err(x) && x@ == e,
        },
        r matches Ok(info) ==> unique_numbers(info@.entries),
{
    let t = chars_of(data);
    let n = t.len();
    let ghost all = split(t@, '\n');
    let ghost mut done: Seq<Seq<char>> = Seq::empty();
    let mut info = BootInfo::new();
    let mut pos: usize = 0;
    assert(t@.subrange(0, n as int) =~= t@);
    assert(done + all =~= all);
    loop
        invariant
            t@ == data@,
            n == t.len(),
            pos <= n,
            all == split(t@, '\n'),
            all == done + split(t@.subrange(pos as int, n as int), '\n'),
            parse_lines(done) == Ok::<BootInfoView, (Seq<char>, Seq<char>)>(info@),
            unique_numbers(info@.entries),
        decreases n - pos,
    {
        let k = find_range(&t, pos, n, '\n');
        proof {
            crate::text::lemma_split_step(t@, pos as int, n as int, k as int, '\n');
        }
        let ghost piece = t@.subrange(pos as int, k as int);
        let ghost next = done.push(piece);
        assert(next.drop_last() =~= done);
        let (a, b) = trim_range(&t, pos, k);
        let ghost before = info@;
        match process_line(&mut info, &t, data, a, b) {
            Err(e) => {
                proof {
                    if k < n {
                        assert(all =~= next + split(t@.subrange(k + 1, n as int), '\n'));
                        lemma_parse_lines_err(next, split(t@.subrange(k + 1, n as int), '\n'));
                    } else {
                        assert(all =~= next);
                    }
                }
                return Err(e);
            },
            Ok(()) => {},
        }
        proof {
            lemma_apply_line_unique(before, trim(piece));
            done = next;
        }
        if k == n {
            assert(all =~= done);
            return Ok(info);
        }
        assert(all =~= done + split(t@.subrange(k + 1, n as int), '\n'));
        pos = k + 1;
    }
}

/// A line keeps the entries' numbers distinct.
pub proof fn lemma_apply_line_unique(st: BootInfoView, line: Seq<char>)
    requires
        unique_numbers(st.entries),
    ensures
        apply_line(st, line) matches Ok(s) ==> unique_numbers(s.entries),
{
    if let Some(e) = entry_of(line) {
        lemma_upsert_unique(st.entries, e);
    }
}


impl BootEntry {
    /// The entry as `number: label`.
    pub fn to_display_string(&self) -> (r: String)
        ensures
            r@ == decimal(self.boot_num as nat) + ": "@ + self.boot_label@,
    {
        let mut r = String::new();
        push_decimal(&mut r, self.boot_num);
        r.append(": ");
        r.append(self.boot_label.as_str());
        r
    }
}

impl BootInfo {
    /// The entry that the system booted from, if the configuration lists it.
    pub fn current_entry(&self) -> (r: Option<&BootEntry>)
        ensures
            r matches Some(e) ==> e.boot_num == self.boot_current && entry_index(
                self@.entries,
                self.boot_current,
            ) < self@.entries.len() && e@ == self@.entries[entry_index(
                self@.entries,
                self.boot_current,
            ) as int],
            r is None <==> forall|i: int|
                0 <= i < self@.entries.len() ==> self@.entries[i].0 != self.boot_current,
    {
        let mut i: usize = 0;
        while i < self.boot_entries.len()
            invariant
                i <= self.boot_entries.len(),
                forall|k: int| 0 <= k < i ==> self@.entries[k].0 != self.boot_current,
            decreases self.boot_entries.len() - i,
        {
            assert(self@.entries[i as int] == self.boot_entries@[i as int]@);
            if self.boot_entries[i].boot_num == self.boot_current {
                proof {
                    lemma_entry_index(self@.entries, self.boot_current);
                }
                return Some(&self.boot_entries[i]);
            }
            i = i + 1;
        }
        None
    }
}

/// The boot entry that a line carries, if it is a boot-entry line.
pub open spec fn entry_line(line: Seq<char>) -> Option<(u32, Seq<char>)> {
    let l = trim(line);
    if find(l, ':') < l.len() {
        None
    } else {
        entry_of(l)
    }
}

/// Whether a line is a boot-entry line for number `n`.
pub open spec fn names_entry(line: Seq<char>, n: u32) -> bool {
    entry_line(line) matches Some(f) && f.0 == n
}

/// A line that the parser passes over: a field that is not recognised, or a
/// line of neither shape.
pub open spec fn ignored_line(line: Seq<char>) -> bool {
    let l = trim(line);
    let c = find(l, ':');
    if c < l.len() {
        let key = trim(l.take(c as int));
        key != "BootNext"@ && key != "BootCurrent"@ && key != "Timeout"@ && key != "BootOrder"@
    } else {
        entry_of(l) is None
    }
}

pub proof fn lemma_ignored_line(st: BootInfoView, line: Seq<char>)
    requires
        ignored_line(line),
    ensures
        apply_line(st, trim(line)) == Ok::<BootInfoView, (Seq<char>, Seq<char>)>(st),
{
}

/// Dropping a passed-over line from any position of a report's lines leaves
/// the parsed configuration, or the error, as it was.
pub proof fn lemma_ignored_line_changes_nothing(p: Seq<Seq<char>>, line: Seq<char>, q: Seq<Seq<char>>)
    requires
        ignored_line(line),
    ensures
        parse_lines(p.push(line) + q) == parse_lines(p + q),
    decreases q.len(),
{
    if q.len() == 0 {
        assert(p.push(line) + q =~= p.push(line));
        assert(p + q =~= p);
        assert(p.push(line).drop_last() =~= p);
        if let Ok(st) = parse_lines(p) {
            lemma_ignored_line(st, line);
        }
    } else {
        lemma_ignored_line_changes_nothing(p, line, q.drop_last());
        assert((p.push(line) + q).drop_last() =~= p.push(line) + q.drop_last());
        assert((p + q).drop_last() =~= p + q.drop_last());
        assert((p.push(line) + q).last() == q.last());
        assert((p + q).last() == q.last());
    }
}

/// Splitting at one separator splits the two sides apart.
pub proof fn lemma_split_concat(x: Seq<char>, y: Seq<char>, sep: char)
    ensures
        split(x + seq![sep] + y, sep) == split(x, sep) + split(y, sep),
    decreases x.len(),
{
    let t = x + seq![sep] + y;
    crate::text::lemma_find(x, sep);
    let k = find(x, sep);
    if k < x.len() {
        assert forall|j: int| 0 <= j < k implies t[j] != sep by {
            assert(t[j] == x[j]);
        }
        assert(t[k as int] == x[k as int]);
        crate::text::lemma_find_at(t, sep, k as int);
        assert(t.take(k as int) =~= x.take(k as int));
        assert(t.skip((k + 1) as int) =~= x.skip((k + 1) as int) + seq![sep] + y);
        lemma_split_concat(x.skip((k + 1) as int), y, sep);
        assert(split(t, sep) =~= split(x, sep) + split(y, sep));
    } else {
        assert forall|j: int| 0 <= j < x.len() implies t[j] != sep by {
            assert(t[j] == x[j]);
        }
        crate::text::lemma_find_at(t, sep, x.len() as int);
        assert(t.take(x.len() as int) =~= x);
        assert(t.skip((x.len() + 1) as int) =~= y);
        assert(split(t, sep) =~= split(x, sep) + split(y, sep));
    }
}

/// A piece without the separator splits into itself.
pub proof fn lemma_split_single(x: Seq<char>, sep: char)
    requires
        forall|j: int| 0 <= j < x.len() ==> x[j] != sep,
    ensures
        split(x, sep) == seq![x],
{
    crate::text::lemma_find_at(x, sep, x.len() as int);
}

/// A report with a passed-over line added between two of its lines parses as
/// the report without it.
pub proof fn lemma_tolerates_ignored_line(a: Seq<char>, line: Seq<char>, b: Seq<char>)
    requires
        forall|j: int| 0 <= j < line.len() ==> line[j] != '\n',
        ignored_line(line),
    ensures
        parse_report(a + seq!['\n'] + line + seq!['\n'] + b) == parse_report(a + seq!['\n'] + b),
{
    let t = a + seq!['\n'] + line + seq!['\n'] + b;
    assert(t =~= a + seq!['\n'] + (line + seq!['\n'] + b));
    lemma_split_concat(a, line + seq!['\n'] + b, '\n');
    lemma_split_concat(line, b, '\n');
    lemma_split_single(line, '\n');
    lemma_split_concat(a, b, '\n');
    let p = split(a, '\n');
    let q = split(b, '\n');
    assert(split(t, '\n') =~= p.push(line) + q);
    lemma_ignored_line_changes_nothing(p, line, q);
}

/// A report with a passed-over line added as its first line parses as the
/// report without it.
pub proof fn lemma_tolerates_ignored_first_line(line: Seq<char>, b: Seq<char>)
    requires
        forall|j: int| 0 <= j < line.len() ==> line[j] != '\n',
        ignored_line(line),
    ensures
        parse_report(line + seq!['\n'] + b) == parse_report(b),
{
    lemma_split_concat(line, b, '\n');
    lemma_split_single(line, '\n');
    let q = split(b, '\n');
    assert(Seq::<Seq<char>>::empty().push(line) + q =~= split(line + seq!['\n'] + b, '\n'));
    assert(Seq::<Seq<char>>::empty() + q =~= q);
    lemma_ignored_line_changes_nothing(Seq::empty(), line, q);
}

pub proof fn lemma_upsert_contains(es: Seq<(u32, Seq<char>)>, e: (u32, Seq<char>))
    ensures
        upsert(es, e).contains(e),
{
    lemma_entry_index(es, e.0);
    let j = entry_index(es, e.0);
    if j < es.len() {
        assert(upsert(es, e)[j as int] == e);
    } else {
        assert(upsert(es, e)[es.len() as int] == e);
    }
}

pub proof fn lemma_upsert_keeps(es: Seq<(u32, Seq<char>)>, e: (u32, Seq<char>), f: (u32, Seq<char>))
    requires
        es.contains(e),
        f.0 != e.0,
    ensures
        upsert(es, f).contains(e),
{
    lemma_entry_index(es, f.0);
    let i = choose|i: int| 0 <= i < es.len() && es[i] == e;
    assert(upsert(es, f)[i] == e);
}

/// Of several boot-entry lines with one number, the last one gives the entry:
/// its label is the one that the configuration holds for that number.
pub proof fn lemma_last_entry_line_wins(lines: Seq<Seq<char>>, j: int, e: (u32, Seq<char>))
    requires
        0 <= j < lines.len(),
        entry_line(lines[j]) == Some(e),
        forall|k: int| j < k < lines.len() ==> !#[trigger] names_entry(lines[k], e.0),
        parse_lines(lines) is Ok,
    ensures
        parse_lines(lines)->Ok_0.entries.contains(e),
    decreases lines.len(),
{
    let init = lines.drop_last();
    if parse_lines(init) is Err {
        assert(parse_lines(lines) is Err);
    }
    let st = parse_lines(init)->Ok_0;
    let l = trim(lines.last());
    if j == lines.len() - 1 {
        lemma_upsert_contains(st.entries, e);
    } else {
        assert forall|k: int| j < k < init.len() implies !#[trigger] names_entry(init[k], e.0) by {
            assert(init[k] == lines[k]);
        }
        assert(init[j] == lines[j]);
        lemma_last_entry_line_wins(init, j, e);
        if find(l, ':') >= l.len() {
            if let Some(f) = entry_of(l) {
                assert(entry_line(lines[lines.len() - 1]) == Some(f));
                assert(!names_entry(lines[lines.len() - 1], e.0));
                lemma_upsert_keeps(st.entries, e, f);
            }
        }
    }
}

/// Every configuration that the parser yields numbers its entries distinctly.
pub proof fn lemma_parsed_numbers_unique(lines: Seq<Seq<char>>)
    ensures
        parse_lines(lines) matches Ok(c) ==> unique_numbers(c.entries),
    decreases lines.len(),
{
    if lines.len() > 0 {
        lemma_parsed_numbers_unique(lines.drop_last());
        if let Ok(st) = parse_lines(lines.drop_last()) {
            lemma_apply_line_unique(st, trim(lines.last()));
        }
    }
}

pub proof fn lemma_lead_all_space(s: Seq<char>, i: int)
    requires
        0 <= i <= s.len(),
        forall|k: int| i <= k < s.len() ==> is_space(s[k]),
    ensures
        lead(s, i) == s.len(),
    decreases s.len() - i,
{
    if i < s.len() {
        lemma_lead_all_space(s, i + 1);
    }
}

pub proof fn lemma_split_all_space(t: Seq<char>)
    requires
        forall|k: int| 0 <= k < t.len() ==> is_space(t[k]),
    ensures
        forall|i: int| 0 <= i < split(t, '\n').len() ==> #[trigger] trim(split(t, '\n')[i]).len() == 0,
    decreases t.len(),
{
    crate::text::lemma_find(t, '\n');
    let k = find(t, '\n');
    let first = t.take(k as int);
    assert forall|m: int| 0 <= m < first.len() implies is_space(first[m]) by {
        assert(first[m] == t[m]);
    }
    lemma_lead_all_space(first, 0);
    lemma_trail_le(first, first.len() as int);
    if k < t.len() {
        let rest = t.skip((k + 1) as int);
        assert forall|m: int| 0 <= m < rest.len() implies is_space(rest[m]) by {
            assert(rest[m] == t[m + k + 1]);
        }
        lemma_split_all_space(rest);
        assert forall|i: int| 0 <= i < split(t, '\n').len() implies #[trigger] trim(
            split(t, '\n')[i],
        ).len() == 0 by {
            if i > 0 {
                assert(split(t, '\n')[i] == split(rest, '\n')[i - 1]);
            } else {
                assert(split(t, '\n')[0] == first);
            }
        }
    } else {
        lemma_lead_all_space(t, 0);
        lemma_trail_le(t, t.len() as int);
        assert(split(t, '\n')[0] == t);
    }
}

pub proof fn lemma_blank_lines(lines: Seq<Seq<char>>)
    requires
        forall|i: int| 0 <= i < lines.len() ==> #[trigger] trim(lines[i]).len() == 0,
    ensures
        parse_lines(lines) == Ok::<BootInfoView, (Seq<char>, Seq<char>)>(empty_info()),
    decreases lines.len(),
{
    if lines.len() > 0 {
        let init = lines.drop_last();
        assert forall|i: int| 0 <= i < init.len() implies #[trigger] trim(init[i]).len() == 0 by {
            assert(init[i] == lines[i]);
        }
        lemma_blank_lines(init);
        assert(trim(lines[lines.len() - 1]).len() == 0);
        assert(find(trim(lines.last()), ':') == 0);
    }
}

/// A report of whitespace alone (or nothing) parses to the empty configuration:
/// current entry 0, no next entry, no timeout, empty order, no entries.
pub proof fn lemma_blank_report(text: Seq<char>)
    requires
        forall|k: int| 0 <= k < text.len() ==> is_space(text[k]),
    ensures
        parse_report(text) == Ok::<BootInfoView, (Seq<char>, Seq<char>)>(empty_info()),
{
    lemma_split_all_space(text);
    lemma_blank_lines(split(text, '\n'));
}

} // verus!

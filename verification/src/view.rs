//! Sorting and filtering: pure functions over a list of records, the logic
//! the dashboard runs as the user types or clicks a column header.

use vstd::prelude::*;
use crate::record::{Record, RecordView};
use crate::text::{
    chars_of, contains_chars, dec_int, dec_nat, lowercase, occurs_in, push_decimal,
    push_signed_decimal, to_lowercase,
};
use crate::wire::views;

verus! {

/// Which column to sort by.
#[derive(Clone, Copy, Debug, PartialEq, Eq, Structural)]
pub enum SortKey {
    Port,
    Pid,
    Process,
    User,
}

/// The column a number from the browser selects: 0 port, 1 pid, 2 process,
/// 3 user, anything else port.
pub open spec fn sort_key_of(value: u32) -> SortKey {
    if value == 1 {
        SortKey::Pid
    } else if value == 2 {
        SortKey::Process
    } else if value == 3 {
        SortKey::User
    } else {
        SortKey::Port
    }
}

impl SortKey {
    /// Decode the integer the browser sends. Anything unexpected falls back
    /// to sorting by port.
    pub fn from_u32(value: u32) -> (k: SortKey)
        ensures
            k == sort_key_of(value),
    {
        match value {
            0 => SortKey::Port,
            1 => SortKey::Pid,
            2 => SortKey::Process,
            3 => SortKey::User,
            _ => SortKey::Port,
        }
    }
}

/// Three-way comparison of two numbers: -1, 0 or 1.
pub open spec fn int_order(a: int, b: int) -> int {
    if a < b {
        -1
    } else if a > b {
        1
    } else {
        0
    }
}

/// Three-way lexicographic comparison of two texts by code point, which is
/// the order of their UTF-8 bytes (the order of `String`).
pub open spec fn lex_order(a: Seq<char>, b: Seq<char>) -> int
    decreases a.len(),
{
    if a.len() == 0 {
        if b.len() == 0 {
            0
        } else {
            -1
        }
    } else if b.len() == 0 {
        1
    } else if a[0] < b[0] {
        -1
    } else if a[0] > b[0] {
        1
    } else {
        lex_order(a.drop_first(), b.drop_first())
    }
}

/// Three-way comparison of two records on the chosen column.
pub open spec fn key_order(a: RecordView, b: RecordView, key: SortKey) -> int {
    match key {
        SortKey::Port => int_order(a.port as int, b.port as int),
        SortKey::Pid => int_order(a.pid as int, b.pid as int),
        SortKey::Process => lex_order(a.process, b.process),
        SortKey::User => lex_order(a.user, b.user),
    }
}

/// `x` placed before the first record of `t` whose key is not below its
/// own.
pub open spec fn insert_by_key(t: Seq<RecordView>, x: RecordView, key: SortKey) -> Seq<
    RecordView,
>
    decreases t.len(),
{
    if t.len() == 0 {
        seq![x]
    } else if key_order(t[0], x, key) >= 0 {
        seq![x] + t
    } else {
        seq![t[0]] + insert_by_key(t.drop_first(), x, key)
    }
}

/// The stable ascending sort of `s` by the chosen column: records with equal
/// keys keep their relative order.
pub open spec fn sort_spec(s: Seq<RecordView>, key: SortKey) -> Seq<RecordView>
    decreases s.len(),
{
    if s.len() == 0 {
        s
    } else {
        insert_by_key(sort_spec(s.drop_first(), key), s[0], key)
    }
}

fn compare_chars(a: &Vec<char>, b: &Vec<char>) -> (r: i8)
    ensures
        r as int == lex_order(a@, b@),
{
    let mut i: usize = 0;
    assert(a@.skip(0) =~= a@);
    assert(b@.skip(0) =~= b@);
    while i < a.len() && i < b.len() && a[i] == b[i]
        invariant
            0 <= i <= a@.len(),
            i <= b@.len(),
            lex_order(a@, b@) == lex_order(a@.skip(i as int), b@.skip(i as int)),
        decreases a.len() - i,
    {
        assert(a@.skip(i as int).drop_first() =~= a@.skip(i + 1));
        assert(b@.skip(i as int).drop_first() =~= b@.skip(i + 1));
        i = i + 1;
    }
    assert(i < a@.len() ==> a@.skip(i as int)[0] == a@[i as int]);
    assert(i < b@.len() ==> b@.skip(i as int)[0] == b@[i as int]);
    assert(i == a@.len() ==> a@.skip(i as int) =~= Seq::<char>::empty());
    assert(i == b@.len() ==> b@.skip(i as int) =~= Seq::<char>::empty());
    if i == a.len() {
        if i == b.len() {
            0
        } else {
            -1
        }
    } else if i == b.len() {
        1
    } else if a[i] < b[i] {
        -1
    } else {
        1
    }
}

fn compare_strings(a: &String, b: &String) -> (r: i8)
    ensures
        r as int == lex_order(a@, b@),
{
    let va = chars_of(a.as_str());
    let vb = chars_of(b.as_str());
    compare_chars(&va, &vb)
}

fn compare_records(a: &Record, b: &Record, key: SortKey) -> (r: i8)
    ensures
        r as int == key_order(a@, b@, key),
{
    match key {
        SortKey::Port => if a.port < b.port {
            -1
        } else if a.port > b.port {
            1
        } else {
            0
        },
        SortKey::Pid => if a.pid < b.pid {
            -1
        } else if a.pid > b.pid {
            1
        } else {
            0
        },
        SortKey::Process => compare_strings(&a.process, &b.process),
        SortKey::User => compare_strings(&a.user, &b.user),
    }
}

proof fn lemma_insert_at(t: Seq<RecordView>, x: RecordView, key: SortKey, j: int)
    requires
        0 <= j <= t.len(),
        forall|i: int| 0 <= i < j ==> key_order(#[trigger] t[i], x, key) < 0,
        j == t.len() || key_order(t[j], x, key) >= 0,
    ensures
        insert_by_key(t, x, key) == t.take(j) + seq![x] + t.skip(j),
    decreases t.len(),
{
    if t.len() == 0 {
        assert(t.take(j) + seq![x] + t.skip(j) =~= seq![x]);
    } else if j == 0 {
        assert(t.take(j) + seq![x] + t.skip(j) =~= seq![x] + t);
    } else {
        assert forall|i: int| 0 <= i < j - 1 implies key_order(#[trigger] t.drop_first()[i], x, key)
            < 0 by {
            assert(t.drop_first()[i] == t[i + 1]);
        }
        lemma_insert_at(t.drop_first(), x, key, j - 1);
        assert(t.take(j) + seq![x] + t.skip(j) =~= seq![t[0]] + (t.drop_first().take(j - 1)
            + seq![x] + t.drop_first().skip(j - 1)));
    }
}

/// Sort a vector of records by the chosen column, ascending and stably.
fn sort_vec(records: &mut Vec<Record>, key: SortKey)
    ensures
        views(final(records)@) == sort_spec(views(old(records)@), key),
{
    let ghost unsorted = views(records@);
    let ghost n = records@.len() as int;
    let mut sorted: Vec<Record> = Vec::new();
    assert(unsorted.skip(n) =~= Seq::<RecordView>::empty());
    while records.len() > 0
        invariant
            n == unsorted.len(),
            records@.len() <= n,
            views(records@) == unsorted.take(records@.len() as int),
            views(sorted@) == sort_spec(unsorted.skip(records@.len() as int), key),
        decreases records.len(),
    {
        let ghost k = records@.len() as int;
        let ghost before = records@;
        let x = records.pop().unwrap();
        assert(views(records@) =~= unsorted.take(k - 1)) by {
            assert(records@ =~= before.drop_last());
        }
        assert(x@ == unsorted[k - 1]) by {
            assert(views(before)[k - 1] == before[k - 1]@);
        }
        let mut j: usize = 0;
        while j < sorted.len() && compare_records(&sorted[j], &x, key) < 0
            invariant
                0 <= j <= sorted@.len(),
                forall|i: int| 0 <= i < j ==> key_order(#[trigger] views(sorted@)[i], x@, key) < 0,
            decreases sorted.len() - j,
        {
            j = j + 1;
        }
        let ghost t = views(sorted@);
        proof {
            lemma_insert_at(t, x@, key, j as int);
            assert(unsorted.skip(k - 1).drop_first() =~= unsorted.skip(k));
            assert(unsorted.skip(k - 1)[0] == unsorted[k - 1]);
        }
        sorted.insert(j, x);
        assert(views(sorted@) =~= t.take(j as int) + seq![x@] + t.skip(j as int));
    }
    assert(unsorted.skip(0) =~= unsorted);
    *records = sorted;
}

/// Sort records in place by the chosen column, ascending; records with equal
/// keys keep their order. Nothing is added or removed.
pub fn sort(records: &mut [Record], key: SortKey)
    ensures
        views(final(records)@) == sort_spec(views(old(records)@), key),
{
    let mut work: Vec<Record> = Vec::new();
    let mut i: usize = 0;
    while i < records.len()
        invariant
            0 <= i <= records@.len(),
            records@ == old(records)@,
            views(work@) == views(records@.take(i as int)),
        decreases records.len() - i,
    {
        let c = records[i].clone();
        let ghost before = work@;
        work.push(c);
        assert(views(work@) =~= views(before).push(c@));
        assert(views(records@.take(i + 1)) =~= views(records@.take(i as int)).push(
            records@[i as int]@,
        ));
        i = i + 1;
    }
    assert(records@.take(records@.len() as int) =~= records@);
    sort_vec(&mut work, key);
    proof {
        law_sort_permutes(views(old(records)@), key);
        assert(views(work@).len() == views(work@).to_multiset().len()) by {
            broadcast use vstd::seq_lib::group_to_multiset_ensures;
        }
        assert(views(old(records)@).len() == views(old(records)@).to_multiset().len()) by {
            broadcast use vstd::seq_lib::group_to_multiset_ensures;
        }
    }
    let n = records.len();
    let mut i: usize = 0;
    while i < n
        invariant
            0 <= i <= n,
            n == records@.len(),
            work@.len() == n,
            forall|k: int| 0 <= k < i ==> #[trigger] records@[k]@ == work@[k]@,
        decreases n - i,
    {
        records[i] = work[i].clone();
        i = i + 1;
    }
    assert(views(records@) =~= views(work@));
}


/// The texts a record is searched in, one per visible field: the text
/// fields lowercased, the port and pid in decimal.
pub open spec fn search_fields(r: RecordView) -> Seq<Seq<char>> {
    seq![
        lowercase(r.proto),
        lowercase(r.addr),
        dec_nat(r.port as nat),
        dec_int(r.pid as int),
        lowercase(r.process),
        lowercase(r.user),
        lowercase(r.cmd),
    ]
}

/// Some text of `fields` contains `needle`.
pub open spec fn some_field_contains(fields: Seq<Seq<char>>, needle: Seq<char>) -> bool {
    exists|i: int| 0 <= i < fields.len() && occurs_in(needle, #[trigger] fields[i])
}

/// Some field of the record contains the (already lowercased) needle.
pub open spec fn matches_needle(r: RecordView, needle_lower: Seq<char>) -> bool {
    some_field_contains(search_fields(r), needle_lower)
}

/// The records `filter` keeps: all of them for an empty needle, else those
/// with some field that contains the lowercased needle, in their input order.
pub open spec fn filter_spec(rs: Seq<RecordView>, needle: Seq<char>) -> Seq<RecordView> {
    if needle.len() == 0 {
        rs
    } else {
        rs.filter(|r: RecordView| matches_needle(r, lowercase(needle)))
    }
}

fn lowercased(field: &String) -> (lower: Vec<char>)
    ensures
        lower@ == lowercase(field@),
{
    let l = to_lowercase(field.as_str());
    chars_of(l.as_str())
}

fn decimal_chars(n: u64) -> (d: Vec<char>)
    ensures
        d@ == dec_nat(n as nat),
{
    let mut s = String::new();
    push_decimal(&mut s, n);
    chars_of(s.as_str())
}

fn signed_decimal_chars(n: i32) -> (d: Vec<char>)
    ensures
        d@ == dec_int(n as int),
{
    let mut s = String::new();
    push_signed_decimal(&mut s, n as i64);
    chars_of(s.as_str())
}

/// Whether some text of `fields` contains `needle`: the search `filter` makes
/// once the fields and the needle are lowercased.
pub fn any_field_contains(fields: &Vec<Vec<char>>, needle: &Vec<char>) -> (b: bool)
    ensures
        b == some_field_contains(fields@.map_values(|f: Vec<char>| f@), needle@),
{
    let ghost texts = fields@.map_values(|f: Vec<char>| f@);
    let mut i: usize = 0;
    while i < fields.len()
        invariant
            0 <= i <= fields@.len(),
            texts == fields@.map_values(|f: Vec<char>| f@),
            forall|k: int| 0 <= k < i ==> !occurs_in(needle@, #[trigger] texts[k]),
        decreases fields.len() - i,
    {
        assert(texts[i as int] == fields@[i as int]@);
        if contains_chars(&fields[i], needle) {
            return true;
        }
        i = i + 1;
    }
    false
}

/// True if some field of `record` contains `needle_lower` (already
/// lowercased); text fields are compared lowercased, numbers in decimal.
fn record_matches(record: &Record, needle_lower: &str) -> (b: bool)
    ensures
        b == matches_needle(record@, needle_lower@),
{
    let mut fields: Vec<Vec<char>> = Vec::new();
    fields.push(lowercased(&record.proto));
    fields.push(lowercased(&record.addr));
    fields.push(decimal_chars(record.port as u64));
    fields.push(signed_decimal_chars(record.pid));
    fields.push(lowercased(&record.process));
    fields.push(lowercased(&record.user));
    fields.push(lowercased(&record.cmd));
    assert(fields@.map_values(|f: Vec<char>| f@) =~= search_fields(record@));
    let needle = chars_of(needle_lower);
    any_field_contains(&fields, &needle)
}

/// Keep only the records with some field that contains `needle`,
/// case-insensitively;
/// an empty needle keeps everything. The input is left untouched.
pub fn filter(records: &[Record], needle: &str) -> (kept: Vec<Record>)
    ensures
        views(kept@) == filter_spec(views(records@), needle@),
{
    let mut kept: Vec<Record> = Vec::new();
    if needle.is_empty() {
        let mut i: usize = 0;
        while i < records.len()
            invariant
                0 <= i <= records@.len(),
                views(kept@) == views(records@.take(i as int)),
            decreases records.len() - i,
        {
            let c = records[i].clone();
            let ghost old_kept = kept@;
            kept.push(c);
            assert(views(kept@) =~= views(old_kept).push(c@));
            assert(views(records@.take(i + 1)) =~= views(records@.take(i as int)).push(
                records@[i as int]@,
            ));
            i = i + 1;
            assert(views(kept@) =~= views(records@.take(i as int)));
        }
        assert(records@.take(records@.len() as int) =~= records@);
        return kept;
    }
    let needle_lower = to_lowercase(needle);
    let ghost pred = |r: RecordView| matches_needle(r, lowercase(needle@));
    let mut i: usize = 0;
    assert(views(records@.take(0)) =~= Seq::<RecordView>::empty());
    while i < records.len()
        invariant
            0 <= i <= records@.len(),
            needle_lower@ == lowercase(needle@),
            pred == (|r: RecordView| matches_needle(r, lowercase(needle@))),
            views(kept@) == views(records@.take(i as int)).filter(pred),
        decreases records.len() - i,
    {
        let record = &records[i];
        let ghost before = views(records@.take(i as int));
        let ghost old_kept = kept@;
        if record_matches(record, needle_lower.as_str()) {
            let c = record.clone();
            kept.push(c);
            assert(views(kept@) =~= views(old_kept).push(c@));
        } else {
            assert(views(kept@) =~= views(old_kept));
        }
        i = i + 1;
        assert(views(records@.take(i as int)) =~= before.push(record@));
        proof {
            before.lemma_filter_push(record@, pred);
        }
        assert(before.push(record@).filter(pred) == if pred(record@) {
            before.filter(pred).push(record@)
        } else {
            before.filter(pred)
        });
    }
    assert(records@.take(records@.len() as int) =~= records@);
    kept
}

/// The browser's column numbers: 0 port, 1 pid, 2 process, 3 user, and
/// anything else port.
pub proof fn law_sort_key_numbers(value: u32)
    ensures
        value == 1 ==> sort_key_of(value) == SortKey::Pid,
        value == 2 ==> sort_key_of(value) == SortKey::Process,
        value == 3 ==> sort_key_of(value) == SortKey::User,
        (value == 0 || value > 3) ==> sort_key_of(value) == SortKey::Port,
{
}

/// `a` comes before `b` in dictionary order of code points: `a` is a proper
/// prefix of `b`, or at the first place where they differ `a` has the
/// smaller character.
pub open spec fn text_before(a: Seq<char>, b: Seq<char>) -> bool {
    ||| (a.len() < b.len() && b.take(a.len() as int) == a)
    ||| exists|i: int| 0 <= i < a.len() && i < b.len() && a.take(i) == b.take(i) && a[i] < b[i]
}

proof fn lemma_lex_order_before(a: Seq<char>, b: Seq<char>)
    ensures
        (lex_order(a, b) == 0) == (a == b),
        (lex_order(a, b) < 0) == text_before(a, b),
    decreases a.len(),
{
    if a.len() == 0 {
        if b.len() == 0 {
            assert(a =~= b);
        } else {
            assert(b.take(0) =~= a);
        }
    } else if b.len() == 0 {
        assert(a.len() != b.len());
    } else if a[0] < b[0] {
        assert(a.take(0) =~= b.take(0));
    } else if a[0] > b[0] {
        if text_before(a, b) {
            if a.len() < b.len() && b.take(a.len() as int) == a {
                assert(b.take(a.len() as int)[0] == b[0]);
            } else {
                let i = choose|i: int|
                    0 <= i < a.len() && i < b.len() && a.take(i) == b.take(i) && a[i] < b[i];
                if i > 0 {
                    assert(a.take(i)[0] == b.take(i)[0]);
                }
            }
        }
    } else {
        let a2 = a.drop_first();
        let b2 = b.drop_first();
        lemma_lex_order_before(a2, b2);
        assert(a =~= seq![a[0]] + a2);
        assert(b =~= seq![b[0]] + b2);
        if text_before(a2, b2) {
            if a2.len() < b2.len() && b2.take(a2.len() as int) == a2 {
                assert(b.take(a.len() as int) =~= seq![b[0]] + b2.take(a2.len() as int));
            } else {
                let i = choose|i: int|
                    0 <= i < a2.len() && i < b2.len() && a2.take(i) == b2.take(i) && a2[i] < b2[i];
                assert(a.take(i + 1) =~= seq![a[0]] + a2.take(i));
                assert(b.take(i + 1) =~= seq![b[0]] + b2.take(i));
                assert(a[i + 1] == a2[i] && b[i + 1] == b2[i]);
            }
        }
        if text_before(a, b) {
            if a.len() < b.len() && b.take(a.len() as int) == a {
                assert(b2.take(a2.len() as int) =~= b.take(a.len() as int).drop_first());
            } else {
                let i = choose|i: int|
                    0 <= i < a.len() && i < b.len() && a.take(i) == b.take(i) && a[i] < b[i];
                assert(i > 0);
                assert(a2.take(i - 1) =~= a.take(i).drop_first());
                assert(b2.take(i - 1) =~= b.take(i).drop_first());
                assert(a2[i - 1] == a[i] && b2[i - 1] == b[i]);
            }
        }
    }
}

/// Sorting compares the chosen column: ports and pids as numbers, process
/// and user names as texts in dictionary order of code points.
pub proof fn law_key_order_columns(a: RecordView, b: RecordView)
    ensures
        (key_order(a, b, SortKey::Port) <= 0) == (a.port <= b.port),
        (key_order(a, b, SortKey::Port) == 0) == (a.port == b.port),
        (key_order(a, b, SortKey::Pid) <= 0) == (a.pid <= b.pid),
        (key_order(a, b, SortKey::Pid) == 0) == (a.pid == b.pid),
        (key_order(a, b, SortKey::Process) < 0) == text_before(a.process, b.process),
        (key_order(a, b, SortKey::Process) == 0) == (a.process == b.process),
        (key_order(a, b, SortKey::User) < 0) == text_before(a.user, b.user),
        (key_order(a, b, SortKey::User) == 0) == (a.user == b.user),
{
    lemma_lex_order_before(a.process, b.process);
    lemma_lex_order_before(a.user, b.user);
}

// ---------------------------------------------------------------------------
// What filtering keeps
// ---------------------------------------------------------------------------

/// Matching ignores case: two non-empty needles with the same lowercase
/// form keep the same records.
pub proof fn law_filter_ignores_case(rs: Seq<RecordView>, n1: Seq<char>, n2: Seq<char>)
    requires
        n1.len() > 0,
        n2.len() > 0,
        lowercase(n1) == lowercase(n2),
    ensures
        filter_spec(rs, n1) == filter_spec(rs, n2),
{
}

/// A kept record is one of the input with a field that contains the needle,
/// and every such input record is kept.
pub proof fn law_filter_membership(rs: Seq<RecordView>, needle: Seq<char>, r: RecordView)
    requires
        needle.len() > 0,
    ensures
        filter_spec(rs, needle).contains(r) <==> rs.contains(r) && matches_needle(
            r,
            lowercase(needle),
        ),
{
    broadcast use vstd::seq_lib::group_filter_ensures;

    let p = |x: RecordView| matches_needle(x, lowercase(needle));
    if filter_spec(rs, needle).contains(r) {
        rs.lemma_filter_contains_rev(p, r);
        let k = choose|k: int| 0 <= k < rs.filter(p).len() && rs.filter(p)[k] == r;
        rs.lemma_filter_pred(p, k);
    }
    if rs.contains(r) && p(r) {
        let k = choose|k: int| 0 <= k < rs.len() && rs[k] == r;
        rs.lemma_filter_contains(p, k);
    }
}

/// Filtering keeps, for a non-empty needle, exactly the input records in
/// which some visible field contains the needle, case ignored: protocol,
/// address, port and pid in decimal, process, user or command line.
/// An empty needle keeps every record.
pub proof fn law_filter_searches_every_field(rs: Seq<RecordView>, needle: Seq<char>, r: RecordView)
    ensures
        needle.len() == 0 ==> filter_spec(rs, needle) == rs,
        needle.len() > 0 ==> (filter_spec(rs, needle).contains(r) <==> rs.contains(r) && {
            let n = lowercase(needle);
            ||| occurs_in(n, lowercase(r.proto))
            ||| occurs_in(n, lowercase(r.addr))
            ||| occurs_in(n, dec_nat(r.port as nat))
            ||| occurs_in(n, dec_int(r.pid as int))
            ||| occurs_in(n, lowercase(r.process))
            ||| occurs_in(n, lowercase(r.user))
            ||| occurs_in(n, lowercase(r.cmd))
        }),
{
    if needle.len() > 0 {
        law_filter_membership(rs, needle, r);
        let n = lowercase(needle);
        let f = search_fields(r);
        assert(f[0] == lowercase(r.proto));
        assert(f[1] == lowercase(r.addr));
        assert(f[2] == dec_nat(r.port as nat));
        assert(f[3] == dec_int(r.pid as int));
        assert(f[4] == lowercase(r.process));
        assert(f[5] == lowercase(r.user));
        assert(f[6] == lowercase(r.cmd));
        if matches_needle(r, n) {
            let i = choose|i: int| 0 <= i < f.len() && occurs_in(n, #[trigger] f[i]);
            assert(0 <= i < 7);
        }
    }
}

proof fn lemma_filter_twice(s: Seq<RecordView>, p: spec_fn(RecordView) -> bool)
    ensures
        s.filter(p).filter(p) == s.filter(p),
    decreases s.len(),
{
    reveal(Seq::filter);
    if s.len() > 0 {
        lemma_filter_twice(s.drop_last(), p);
        if p(s.last()) {
            s.drop_last().filter(p).lemma_filter_push(s.last(), p);
        }
    }
}

/// Filtering what was already filtered with the same needle changes
/// nothing.
pub proof fn law_filter_idempotent(rs: Seq<RecordView>, needle: Seq<char>)
    ensures
        filter_spec(filter_spec(rs, needle), needle) == filter_spec(rs, needle),
{
    if needle.len() > 0 {
        lemma_filter_twice(rs, |x: RecordView| matches_needle(x, lowercase(needle)));
    }
}

// ---------------------------------------------------------------------------
// What sorting keeps
// ---------------------------------------------------------------------------

/// `s` is in ascending order of the chosen column.
pub open spec fn sorted_by(s: Seq<RecordView>, key: SortKey) -> bool {
    forall|i: int, j: int| 0 <= i < j < s.len() ==> key_order(s[i], s[j], key) <= 0
}

/// The records of `s` whose key equals the key of `v`.
pub open spec fn same_key(s: Seq<RecordView>, v: RecordView, key: SortKey) -> Seq<RecordView> {
    s.filter(|r: RecordView| key_order(r, v, key) == 0)
}

proof fn lemma_lex_antisym(a: Seq<char>, b: Seq<char>)
    ensures
        lex_order(a, b) == -lex_order(b, a),
    decreases a.len(),
{
    if a.len() > 0 && b.len() > 0 && a[0] == b[0] {
        lemma_lex_antisym(a.drop_first(), b.drop_first());
    }
}

proof fn lemma_lex_equal(a: Seq<char>, b: Seq<char>)
    requires
        lex_order(a, b) == 0,
    ensures
        a == b,
    decreases a.len(),
{
    if a.len() == 0 {
        assert(b =~= a);
    } else {
        lemma_lex_equal(a.drop_first(), b.drop_first());
        assert(a =~= seq![a[0]] + a.drop_first());
        assert(b =~= seq![b[0]] + b.drop_first());
    }
}

proof fn lemma_lex_trans(a: Seq<char>, b: Seq<char>, c: Seq<char>)
    requires
        lex_order(a, b) <= 0,
        lex_order(b, c) <= 0,
    ensures
        lex_order(a, c) <= 0,
    decreases a.len(),
{
    if a.len() > 0 && b.len() > 0 && c.len() > 0 && a[0] == b[0] && b[0] == c[0] {
        lemma_lex_trans(a.drop_first(), b.drop_first(), c.drop_first());
    }
}

proof fn lemma_key_antisym(a: RecordView, b: RecordView, key: SortKey)
    ensures
        key_order(a, b, key) == -key_order(b, a, key),
{
    match key {
        SortKey::Process => lemma_lex_antisym(a.process, b.process),
        SortKey::User => lemma_lex_antisym(a.user, b.user),
        _ => {},
    }
}

proof fn lemma_key_trans(a: RecordView, b: RecordView, c: RecordView, key: SortKey)
    requires
        key_order(a, b, key) <= 0,
        key_order(b, c, key) <= 0,
    ensures
        key_order(a, c, key) <= 0,
{
    match key {
        SortKey::Process => lemma_lex_trans(a.process, b.process, c.process),
        SortKey::User => lemma_lex_trans(a.user, b.user, c.user),
        _ => {},
    }
}

/// Records with the same key compare alike with every other record.
proof fn lemma_key_same(a: RecordView, x: RecordView, v: RecordView, key: SortKey)
    requires
        key_order(x, v, key) == 0,
    ensures
        key_order(a, x, key) == key_order(a, v, key),
{
    match key {
        SortKey::Process => lemma_lex_equal(x.process, v.process),
        SortKey::User => lemma_lex_equal(x.user, v.user),
        _ => {},
    }
}

proof fn lemma_insert_multiset(t: Seq<RecordView>, x: RecordView, key: SortKey)
    ensures
        insert_by_key(t, x, key).to_multiset() == t.to_multiset().insert(x),
    decreases t.len(),
{
    broadcast use vstd::seq_lib::group_to_multiset_ensures;
    broadcast use vstd::multiset::group_multiset_axioms;

    if t.len() == 0 {
        assert(insert_by_key(t, x, key) =~= t.push(x));
    } else if key_order(t[0], x, key) >= 0 {
        vstd::seq_lib::lemma_multiset_commutative(seq![x], t);
        assert(seq![x] =~= Seq::<RecordView>::empty().push(x));
        assert(seq![x].to_multiset() =~= vstd::multiset::Multiset::<RecordView>::empty().insert(x));
        assert(insert_by_key(t, x, key).to_multiset() =~= t.to_multiset().insert(x));
    } else {
        lemma_insert_multiset(t.drop_first(), x, key);
        vstd::seq_lib::lemma_multiset_commutative(seq![t[0]], insert_by_key(t.drop_first(), x, key));
        vstd::seq_lib::lemma_multiset_commutative(seq![t[0]], t.drop_first());
        assert(seq![t[0]] + t.drop_first() =~= t);
        assert(insert_by_key(t, x, key).to_multiset() =~= t.to_multiset().insert(x));
    }
}

proof fn lemma_insert_sorted(t: Seq<RecordView>, x: RecordView, key: SortKey)
    requires
        sorted_by(t, key),
    ensures
        sorted_by(insert_by_key(t, x, key), key),
    decreases t.len(),
{
    broadcast use vstd::seq_lib::group_to_multiset_ensures;
    broadcast use vstd::multiset::group_multiset_axioms;

    let u = insert_by_key(t, x, key);
    if t.len() == 0 {
    } else if key_order(t[0], x, key) >= 0 {
        lemma_key_antisym(t[0], x, key);
        assert forall|i: int, j: int| 0 <= i < j < u.len() implies key_order(u[i], u[j], key)
            <= 0 by {
            if i == 0 {
                if j > 1 {
                    lemma_key_trans(x, t[0], t[j - 1], key);
                }
            }
        }
    } else {
        let w = insert_by_key(t.drop_first(), x, key);
        assert(sorted_by(t.drop_first(), key));
        lemma_insert_sorted(t.drop_first(), x, key);
        lemma_insert_multiset(t.drop_first(), x, key);
        assert forall|i: int, j: int| 0 <= i < j < u.len() implies key_order(u[i], u[j], key)
            <= 0 by {
            if i == 0 {
                let y = w[j - 1];
                assert(w.contains(y));
                assert(w.to_multiset().count(y) > 0);
                if y != x {
                    assert(t.drop_first().to_multiset().count(y) > 0);
                    assert(t.drop_first().contains(y));
                    let m = choose|m: int| 0 <= m < t.drop_first().len() && t.drop_first()[m] == y;
                    assert(t[m + 1] == y);
                }
            } else {
                assert(u[i] == w[i - 1] && u[j] == w[j - 1]);
            }
        }
    }
}

proof fn lemma_insert_same_key(t: Seq<RecordView>, x: RecordView, v: RecordView, key: SortKey)
    ensures
        same_key(insert_by_key(t, x, key), v, key) == (if key_order(x, v, key) == 0 {
            seq![x] + same_key(t, v, key)
        } else {
            same_key(t, v, key)
        }),
    decreases t.len(),
{
    let p = |r: RecordView| key_order(r, v, key) == 0;
    reveal_with_fuel(Seq::filter, 2);
    assert(seq![x].drop_last() =~= Seq::<RecordView>::empty());
    if t.len() == 0 {
        assert(Seq::<RecordView>::empty().filter(p) =~= Seq::<RecordView>::empty());
        assert(insert_by_key(t, x, key) =~= seq![x]);
        assert(t =~= Seq::<RecordView>::empty());
    } else if key_order(t[0], x, key) >= 0 {
        Seq::filter_distributes_over_add(seq![x], t, p);
    } else {
        let t1 = t.drop_first();
        lemma_insert_same_key(t1, x, v, key);
        Seq::filter_distributes_over_add(seq![t[0]], insert_by_key(t1, x, key), p);
        Seq::filter_distributes_over_add(seq![t[0]], t1, p);
        assert(seq![t[0]] + t1 =~= t);
        assert(seq![t[0]].drop_last() =~= Seq::<RecordView>::empty());
        if key_order(x, v, key) == 0 {
            lemma_key_same(t[0], x, v, key);
            assert(seq![t[0]].filter(p) =~= Seq::<RecordView>::empty());
        }
    }
}

/// Sorting puts the records in ascending order of the chosen column.
pub proof fn law_sort_orders(s: Seq<RecordView>, key: SortKey)
    ensures
        sorted_by(sort_spec(s, key), key),
    decreases s.len(),
{
    if s.len() > 0 {
        law_sort_orders(s.drop_first(), key);
        lemma_insert_sorted(sort_spec(s.drop_first(), key), s[0], key);
    }
}

/// Sorting neither adds nor removes records: the result is a permutation.
pub proof fn law_sort_permutes(s: Seq<RecordView>, key: SortKey)
    ensures
        sort_spec(s, key).to_multiset() == s.to_multiset(),
    decreases s.len(),
{
    broadcast use vstd::seq_lib::group_to_multiset_ensures;
    broadcast use vstd::multiset::group_multiset_axioms;

    if s.len() > 0 {
        law_sort_permutes(s.drop_first(), key);
        lemma_insert_multiset(sort_spec(s.drop_first(), key), s[0], key);
        vstd::seq_lib::lemma_multiset_commutative(seq![s[0]], s.drop_first());
        assert(seq![s[0]] + s.drop_first() =~= s);
        assert(seq![s[0]] =~= Seq::<RecordView>::empty().push(s[0]));
        assert(sort_spec(s, key).to_multiset() =~= s.to_multiset());
    }
}

/// Sorting is stable: the records that share any one key value come out in
/// the order they went in.
pub proof fn law_sort_stable(s: Seq<RecordView>, v: RecordView, key: SortKey)
    ensures
        same_key(sort_spec(s, key), v, key) == same_key(s, v, key),
    decreases s.len(),
{
    let p = |r: RecordView| key_order(r, v, key) == 0;
    if s.len() > 0 {
        law_sort_stable(s.drop_first(), v, key);
        lemma_insert_same_key(sort_spec(s.drop_first(), key), s[0], v, key);
        Seq::filter_distributes_over_add(seq![s[0]], s.drop_first(), p);
        assert(seq![s[0]] + s.drop_first() =~= s);
        reveal_with_fuel(Seq::filter, 2);
        assert(seq![s[0]].drop_last() =~= Seq::<RecordView>::empty());
    }
}

} // verus!

//! The registry file format.
//!
//! The file is a generated shell script: a `#!/bin/bash` header followed by
//! one record line per service. A record line embeds the service name three
//! times — as the label handed to `exec -a`, as the stem of the log file,
//! and as a trailing comment — and the command once:
//!
//! `bash -c "exec -a <name> <command> &>> <name>.log &" # <name>`
//!
//! The triple occurrence is a self-consistency check against hand-edited
//! corruption: a line whose three names disagree is rejected. Serializing
//! and re-parsing a well-formed registry yields the same mapping.

use vstd::prelude::*;

use crate::bytes::{bytes_eq_at, copy_region, regions_eq};
use crate::names::{is_word_byte, valid_command, valid_name};
use crate::registry::{map_of, Registry, ServiceEntry};

verus! {

/// `bash -c "exec -a ` — the fixed opening of every record line.
pub open spec fn lit_prefix() -> Seq<u8> {
    seq![98u8, 97, 115, 104, 32, 45, 99, 32, 34, 101, 120, 101, 99, 32, 45, 97, 32]
}

/// ` &>> ` — separates the command from the log-file stem.
pub open spec fn lit_sep() -> Seq<u8> {
    seq![32u8, 38, 62, 62, 32]
}

/// `.log &" # ` — closes the redirection and opens the trailing comment.
pub open spec fn lit_tail() -> Seq<u8> {
    seq![46u8, 108, 111, 103, 32, 38, 34, 32, 35, 32]
}

/// `#!/bin/bash` — the header line, always rewritten on save.
pub open spec fn lit_header() -> Seq<u8> {
    seq![35u8, 33, 47, 98, 105, 110, 47, 98, 97, 115, 104]
}

/// A record line with its four fields spelled out; in a well-formed line
/// the three name fields agree.
pub open spec fn raw_line(n1: Seq<u8>, c: Seq<u8>, n2: Seq<u8>, n3: Seq<u8>) -> Seq<u8> {
    lit_prefix() + n1 + seq![32u8] + c + lit_sep() + n2 + lit_tail() + n3
}

/// The record line of a service.
pub open spec fn line_of(n: Seq<u8>, c: Seq<u8>) -> Seq<u8> {
    raw_line(n, c, n, n)
}

/// The full text of the registry file: the header, then one record line per
/// entry in registry order, joined by newlines with no trailing newline.
pub open spec fn lines_text(s: Seq<ServiceEntry>) -> Seq<u8>
    decreases s.len(),
{
    if s.len() == 0 {
        lit_header()
    } else {
        lines_text(s.drop_last()) + seq![10u8] + line_of(s.last().name@, s.last().command@)
    }
}

fn lit_prefix_vec() -> (r: Vec<u8>)
    ensures
        r@ == lit_prefix(),
{
    let v: Vec<u8> = vec![98u8, 97, 115, 104, 32, 45, 99, 32, 34, 101, 120, 101, 99, 32, 45, 97, 32];
    proof {
        assert(v@ =~= lit_prefix());
    }
    v
}

pub(crate) fn lit_sep_vec() -> (r: Vec<u8>)
    ensures
        r@ == lit_sep(),
{
    let v: Vec<u8> = vec![32u8, 38, 62, 62, 32];
    proof {
        assert(v@ =~= lit_sep());
    }
    v
}

fn lit_tail_vec() -> (r: Vec<u8>)
    ensures
        r@ == lit_tail(),
{
    let v: Vec<u8> = vec![46u8, 108, 111, 103, 32, 38, 34, 32, 35, 32];
    proof {
        assert(v@ =~= lit_tail());
    }
    v
}

fn lit_header_vec() -> (r: Vec<u8>)
    ensures
        r@ == lit_header(),
{
    let v: Vec<u8> = vec![35u8, 33, 47, 98, 105, 110, 47, 98, 97, 115, 104];
    proof {
        assert(v@ =~= lit_header());
    }
    v
}

/// Appends `what` to `out`.
pub(crate) fn append_bytes(out: &mut Vec<u8>, what: &Vec<u8>)
    ensures
        final(out)@ == old(out)@ + what@,
{
    let mut i: usize = 0;
    while i < what.len()
        invariant
            i <= what@.len(),
            out@ == old(out)@ + what@.subrange(0, i as int),
        decreases what@.len() - i,
    {
        out.push(what[i]);
        proof {
            assert(old(out)@ + what@.subrange(0, i + 1) =~= (old(out)@ + what@.subrange(
                0,
                i as int,
            )).push(what@[i as int]));
        }
        i += 1;
    }
    proof {
        assert(what@.subrange(0, what@.len() as int) =~= what@);
    }
}

/// Appends the record line of one entry to `out`.
fn append_line(out: &mut Vec<u8>, name: &Vec<u8>, command: &Vec<u8>)
    ensures
        final(out)@ == old(out)@ + line_of(name@, command@),
{
    append_bytes(out, &lit_prefix_vec());
    append_bytes(out, name);
    out.push(32u8);
    append_bytes(out, command);
    append_bytes(out, &lit_sep_vec());
    append_bytes(out, name);
    append_bytes(out, &lit_tail_vec());
    append_bytes(out, name);
    proof {
        assert(out@ =~= old(out)@ + line_of(name@, command@));
    }
}

/// Serializes the registry to the exact text of its file: the header line,
/// then one record line per entry, joined by single newlines. The inverse of
/// `parse_service_file` on well-formed registries.
pub fn write_service_file(reg: &Registry) -> (r: Vec<u8>)
    ensures
        r@ == lines_text(reg.entries@),
{
    let mut out: Vec<u8> = lit_header_vec();
    let mut i: usize = 0;
    while i < reg.entries.len()
        invariant
            i <= reg.entries@.len(),
            out@ == lines_text(reg.entries@.subrange(0, i as int)),
        decreases reg.entries@.len() - i,
    {
        out.push(10u8);
        let entry = &reg.entries[i];
        append_line(&mut out, &entry.name, &entry.command);
        proof {
            let sub1 = reg.entries@.subrange(0, i + 1);
            assert(sub1.drop_last() =~= reg.entries@.subrange(0, i as int));
            assert(sub1.last() == reg.entries@[i as int]);
            assert(out@ =~= lines_text(reg.entries@.subrange(0, i as int)) + seq![10u8] + line_of(
                reg.entries@[i as int].name@,
                reg.entries@[i as int].command@,
            ));
        }
        i += 1;
    }
    proof {
        assert(reg.entries@.subrange(0, reg.entries@.len() as int) =~= reg.entries@);
    }
    out
}

/// `line` is exactly the record line of service `n` running `c`, for a
/// syntactically valid name and a non-empty command.
pub open spec fn line_matches(line: Seq<u8>, n: Seq<u8>, c: Seq<u8>) -> bool {
    valid_name(n) && c.len() > 0 && line == line_of(n, c)
}

/// `line` is the record line of some service.
pub open spec fn some_record(line: Seq<u8>) -> bool {
    exists|n: Seq<u8>, c: Seq<u8>| line_matches(line, n, c)
}

/// The (unique) name and command a record line encodes.
pub open spec fn record_of(line: Seq<u8>) -> (Seq<u8>, Seq<u8>) {
    choose|n: Seq<u8>, c: Seq<u8>| line_matches(line, n, c)
}

/// The mapping described by a sequence of record lines, later records
/// overwriting earlier ones; `None` as soon as any line is not a record.
pub open spec fn records_map(lines: Seq<Seq<u8>>) -> Option<Map<Seq<u8>, Seq<u8>>>
    decreases lines.len(),
{
    if lines.len() == 0 {
        Some(Map::<Seq<u8>, Seq<u8>>::empty())
    } else {
        match records_map(lines.drop_last()) {
            Some(m) => if some_record(lines.last()) {
                Some(m.insert(record_of(lines.last()).0, record_of(lines.last()).1))
            } else {
                None
            },
            None => None,
        }
    }
}

/// The lines of a byte text, split on newline; splitting an empty text
/// yields one empty line, as `split` does.
pub open spec fn file_lines(s: Seq<u8>) -> Seq<Seq<u8>>
    decreases s.len(),
{
    if s.len() == 0 {
        seq![Seq::<u8>::empty()]
    } else if s[0] == 10 {
        seq![Seq::<u8>::empty()] + file_lines(s.skip(1))
    } else {
        let rest = file_lines(s.skip(1));
        seq![seq![s[0]] + rest[0]] + rest.skip(1)
    }
}

/// The non-blank lines, in order.
pub open spec fn nonblank(ls: Seq<Seq<u8>>) -> Seq<Seq<u8>>
    decreases ls.len(),
{
    if ls.len() == 0 {
        Seq::empty()
    } else if ls.last().len() > 0 {
        nonblank(ls.drop_last()).push(ls.last())
    } else {
        nonblank(ls.drop_last())
    }
}

/// What a registry file means: its first non-blank line is the header,
/// skipped without inspection; every further non-blank line must be a
/// record. A file with no non-blank line is an empty registry.
pub open spec fn parse_spec(s: Seq<u8>) -> Option<Map<Seq<u8>, Seq<u8>>> {
    let ls = nonblank(file_lines(s));
    if ls.len() == 0 {
        Some(Map::<Seq<u8>, Seq<u8>>::empty())
    } else {
        records_map(ls.skip(1))
    }
}

/// Where each field of a record line sits: byte-level layout of
/// `raw_line(n1, c, n2, n3)`.
pub proof fn lemma_raw_shape(n1: Seq<u8>, c: Seq<u8>, n2: Seq<u8>, n3: Seq<u8>)
    ensures
        ({
            let line = raw_line(n1, c, n2, n3);
            let a = n1.len() as int;
            let b = c.len() as int;
            let d = n2.len() as int;
            let e = n3.len() as int;
            &&& line.len() == 33 + a + b + d + e
            &&& line.subrange(0, 17) == lit_prefix()
            &&& line.subrange(17, 17 + a) == n1
            &&& line[17 + a] == 32
            &&& line.subrange(18 + a, 18 + a + b) == c
            &&& line.subrange(18 + a + b, 23 + a + b) == lit_sep()
            &&& line.subrange(23 + a + b, 23 + a + b + d) == n2
            &&& line.subrange(23 + a + b + d, 33 + a + b + d) == lit_tail()
            &&& line.subrange(33 + a + b + d, 33 + a + b + d + e) == n3
        }),
{
    let line = raw_line(n1, c, n2, n3);
    let a = n1.len() as int;
    let b = c.len() as int;
    let d = n2.len() as int;
    let e = n3.len() as int;
    assert(lit_prefix().len() == 17);
    assert(lit_sep().len() == 5);
    assert(lit_tail().len() == 10);
    assert(line.subrange(0, 17) =~= lit_prefix());
    assert(line.subrange(17, 17 + a) =~= n1);
    assert(line.subrange(18 + a, 18 + a + b) =~= c);
    assert(line.subrange(18 + a + b, 23 + a + b) =~= lit_sep());
    assert(line.subrange(23 + a + b, 23 + a + b + d) =~= n2);
    assert(line.subrange(23 + a + b + d, 33 + a + b + d) =~= lit_tail());
    assert(line.subrange(33 + a + b + d, 33 + a + b + d + e) =~= n3);
}

/// Two concatenations ending in a name are equal only if the names agree,
/// provided each name is preceded by a non-word byte.
proof fn lemma_strip_suffix_name(x: Seq<u8>, p: Seq<u8>, y: Seq<u8>, q: Seq<u8>)
    requires
        x + p == y + q,
        valid_name(p),
        valid_name(q),
        x.len() > 0,
        y.len() > 0,
        !is_word_byte(x.last()),
        !is_word_byte(y.last()),
    ensures
        p == q,
        x == y,
{
    let t = x + p;
    let xl = x.len() as int;
    let yl = y.len() as int;
    let pl = p.len() as int;
    let ql = q.len() as int;
    assert((x + p).len() == x.len() + p.len());
    assert((y + q).len() == y.len() + q.len());
    assert(xl + pl == yl + ql);
    if pl < ql {
        assert(t[xl - 1] == x.last());
        assert((y + q)[yl + (ql - pl - 1)] == q[ql - pl - 1]);
        assert(yl + (ql - pl - 1) == xl - 1);
        assert(is_word_byte(q[ql - pl - 1]));
        assert(false);
    }
    if ql < pl {
        assert((y + q)[yl - 1] == y.last());
        assert(t[xl + (pl - ql - 1)] == p[pl - ql - 1]);
        assert(xl + (pl - ql - 1) == yl - 1);
        assert(is_word_byte(p[pl - ql - 1]));
        assert(false);
    }
    assert(pl == ql && xl == yl);
    assert forall|i: int| 0 <= i < pl implies p[i] == q[i] by {
        assert(t[xl + i] == p[i]);
        assert((y + q)[yl + i] == q[i]);
    }
    assert(p =~= q);
    assert forall|i: int| 0 <= i < xl implies x[i] == y[i] by {
        assert(t[i] == x[i]);
        assert((y + q)[i] == y[i]);
    }
    assert(x =~= y);
}

/// Equal concatenations with the same known suffix have equal stems.
proof fn lemma_strip_suffix_exact(x: Seq<u8>, y: Seq<u8>, t: Seq<u8>)
    requires
        x + t == y + t,
    ensures
        x == y,
{
    assert((x + t).len() == x.len() + t.len());
    assert((y + t).len() == y.len() + t.len());
    assert(x.len() == y.len());
    assert forall|i: int| 0 <= i < x.len() implies x[i] == y[i] by {
        assert((x + t)[i] == x[i]);
        assert((y + t)[i] == y[i]);
    }
    assert(x =~= y);
}

/// After a common prefix, a word-run name ended by a space and the tail
/// after it are both forced.
proof fn lemma_strip_label(a: Seq<u8>, n1: Seq<u8>, c: Seq<u8>, n2: Seq<u8>, cc: Seq<u8>)
    requires
        a + n1 + seq![32u8] + c == a + n2 + seq![32u8] + cc,
        valid_name(n1),
        valid_name(n2),
    ensures
        n1 == n2,
        c == cc,
{
    let t = a + n1 + seq![32u8] + c;
    let u = a + n2 + seq![32u8] + cc;
    let al = a.len() as int;
    let l1 = n1.len() as int;
    let l2 = n2.len() as int;
    assert(!is_word_byte(32));
    if l1 < l2 {
        assert(t[al + l1] == 32);
        assert(u[al + l1] == n2[l1]);
        assert(is_word_byte(n2[l1]));
        assert(false);
    }
    if l2 < l1 {
        assert(u[al + l2] == 32);
        assert(t[al + l2] == n1[l2]);
        assert(is_word_byte(n1[l2]));
        assert(false);
    }
    assert(l1 == l2);
    assert forall|i: int| 0 <= i < l1 implies n1[i] == n2[i] by {
        assert(t[al + i] == n1[i]);
        assert(u[al + i] == n2[i]);
    }
    assert(n1 =~= n2);
    assert(t.len() == a.len() + n1.len() + 1 + c.len());
    assert(u.len() == a.len() + n2.len() + 1 + cc.len());
    assert(c.len() == cc.len());
    assert forall|i: int| 0 <= i < c.len() implies c[i] == cc[i] by {
        assert(t[al + l1 + 1 + i] == c[i]);
        assert(u[al + l1 + 1 + i] == cc[i]);
    }
    assert(c =~= cc);
}

/// A record line forces its fields: if the line assembled from fields
/// `n1, c, n2, n3` is the record line of service `n` running `cc`, then all
/// three name fields equal `n` and the command field equals `cc`.
pub proof fn lemma_match_forces(
    n1: Seq<u8>,
    c: Seq<u8>,
    n2: Seq<u8>,
    n3: Seq<u8>,
    n: Seq<u8>,
    cc: Seq<u8>,
)
    requires
        valid_name(n1),
        valid_name(n2),
        valid_name(n3),
        c.len() > 0,
        line_matches(raw_line(n1, c, n2, n3), n, cc),
    ensures
        n1 == n,
        n2 == n,
        n3 == n,
        c == cc,
{
    let p2 = lit_prefix() + n1 + seq![32u8] + c + lit_sep();
    let p1 = p2 + n2;
    let x = p1 + lit_tail();
    let q2 = lit_prefix() + n + seq![32u8] + cc + lit_sep();
    let q1 = q2 + n;
    let y = q1 + lit_tail();
    assert(x + n3 == y + n);
    assert(lit_tail().len() == 10 && lit_sep().len() == 5);
    assert(x.last() == lit_tail()[9]);
    assert(y.last() == lit_tail()[9]);
    assert(lit_tail()[9] == 32 && !is_word_byte(32));
    lemma_strip_suffix_name(x, n3, y, n);
    lemma_strip_suffix_exact(p1, q1, lit_tail());
    assert(p2.last() == lit_sep()[4]);
    assert(q2.last() == lit_sep()[4]);
    assert(lit_sep()[4] == 32);
    lemma_strip_suffix_name(p2, n2, q2, n);
    lemma_strip_suffix_exact(
        lit_prefix() + n1 + seq![32u8] + c,
        lit_prefix() + n + seq![32u8] + cc,
        lit_sep(),
    );
    lemma_strip_label(lit_prefix(), n1, c, n, cc);
}

/// The record line of a valid service is a record line, and decodes to
/// exactly that service.
pub proof fn lemma_record_of_line(n: Seq<u8>, c: Seq<u8>)
    requires
        valid_name(n),
        c.len() > 0,
    ensures
        some_record(line_of(n, c)),
        record_of(line_of(n, c)) == (n, c),
{
    let line = line_of(n, c);
    assert(line_matches(line, n, c));
    assert(some_record(line));
    let (n2, c2) = record_of(line);
    assert(line_matches(line, n2, c2));
    lemma_match_forces(n, c, n, n, n2, c2);
}

/// One bad line poisons the whole sequence of records.
pub proof fn lemma_records_map_bad(lines: Seq<Seq<u8>>, j: int)
    requires
        0 <= j < lines.len(),
        !some_record(lines[j]),
    ensures
        records_map(lines) is None,
    decreases lines.len(),
{
    if j == lines.len() - 1 {
    } else {
        lemma_records_map_bad(lines.drop_last(), j);
    }
}


/// The longest run of word bytes ending just before `end`.
fn scan_word_back(line: &Vec<u8>, end: usize) -> (w: usize)
    requires
        end <= line@.len(),
    ensures
        w <= end,
        forall|j: int| end - w <= j < end ==> is_word_byte(line@[j]),
        w < end ==> !is_word_byte(line@[end - w - 1]),
{
    let mut w: usize = 0;
    while w < end && crate::names::word_byte(line[end - 1 - w])
        invariant
            w <= end,
            end <= line@.len(),
            forall|j: int| end - w <= j < end ==> is_word_byte(line@[j]),
        decreases end - w,
    {
        w += 1;
    }
    w
}

/// The longest run of word bytes from position 17, stopping at `limit`.
fn scan_word_fwd(line: &Vec<u8>, limit: usize) -> (w: usize)
    requires
        17 <= limit <= line@.len(),
    ensures
        17 + w <= limit,
        forall|j: int| 17 <= j < 17 + w ==> is_word_byte(line@[j]),
        17 + w < limit ==> !is_word_byte(line@[17 + w]),
{
    let mut w: usize = 0;
    while 17 + w < limit && crate::names::word_byte(line[17 + w])
        invariant
            17 + w <= limit,
            limit <= line@.len(),
            forall|j: int| 17 <= j < 17 + w ==> is_word_byte(line@[j]),
        decreases limit - w,
    {
        w += 1;
    }
    w
}

/// On a record line, a maximal trailing word run is exactly the comment
/// name.
#[verifier::rlimit(100)]
#[verifier::spinoff_prover]
proof fn lemma_ws_forced(n: Seq<u8>, c: Seq<u8>, w: int)
    requires
        valid_name(n),
        c.len() > 0,
        ({
            let line = line_of(n, c);
            &&& 0 <= w <= line.len()
            &&& forall|j: int| line.len() - w <= j < line.len() ==> is_word_byte(line[j])
            &&& w < line.len() ==> !is_word_byte(line[line.len() - w - 1])
        }),
    ensures
        w == n.len(),
{
    let line = line_of(n, c);
    lemma_raw_shape(n, c, n, n);
    let m = n.len() as int;
    let b = c.len() as int;
    let len = line.len() as int;
    assert(len == 33 + m + b + m + m);
    let tail = line.subrange(23 + m + b + m, 33 + m + b + m);
    let name3 = line.subrange(33 + m + b + m, 33 + m + b + m + m);
    assert(lit_tail()[9] == 32 && !is_word_byte(32));
    if w < m {
        assert(name3[m - w - 1] == line[33 + m + b + m + (m - w - 1)]);
        assert(33 + m + b + m + (m - w - 1) == len - w - 1);
        assert(is_word_byte(n[m - w - 1]));
        assert(!is_word_byte(line[len - w - 1]));
        assert(false);
    }
    if w > m {
        assert(tail[9] == line[23 + m + b + m + 9]);
        assert(23 + m + b + m + 9 == len - m - 1);
        assert(line[len - m - 1] == 32);
        assert(len - w <= len - m - 1 < len);
        assert(is_word_byte(line[len - m - 1]));
        assert(false);
    }
}

/// On a record line, a maximal word run ending just before the tail literal
/// is exactly the log-stem name.
#[verifier::rlimit(100)]
#[verifier::spinoff_prover]
proof fn lemma_wb_forced(n: Seq<u8>, c: Seq<u8>, w: int)
    requires
        valid_name(n),
        c.len() > 0,
        ({
            let line = line_of(n, c);
            let e2 = line.len() - n.len() - 10;
            &&& 0 <= w <= e2
            &&& forall|j: int| e2 - w <= j < e2 ==> is_word_byte(line[j])
            &&& w < e2 ==> !is_word_byte(line[e2 - w - 1])
        }),
    ensures
        w == n.len(),
{
    let line = line_of(n, c);
    lemma_raw_shape(n, c, n, n);
    let m = n.len() as int;
    let b = c.len() as int;
    let len = line.len() as int;
    assert(len == 33 + m + b + m + m);
    let e2 = len - m - 10;
    assert(e2 == 23 + m + b + m);
    let mid = line.subrange(23 + m + b, 23 + m + b + m);
    let sep = line.subrange(18 + m + b, 23 + m + b);
    assert(lit_sep()[4] == 32 && !is_word_byte(32));
    if w < m {
        assert(mid[m - w - 1] == line[23 + m + b + (m - w - 1)]);
        assert(23 + m + b + (m - w - 1) == e2 - w - 1);
        assert(is_word_byte(n[m - w - 1]));
        assert(w < e2);
        assert(!is_word_byte(line[e2 - w - 1]));
        assert(false);
    }
    if w > m {
        assert(sep[4] == line[18 + m + b + 4]);
        assert(18 + m + b + 4 == e2 - m - 1);
        assert(line[e2 - m - 1] == 32);
        assert(e2 - w <= e2 - m - 1 < e2);
        assert(is_word_byte(line[e2 - m - 1]));
        assert(false);
    }
}

/// On a record line, a maximal word run from position 17 is exactly the
/// label name.
#[verifier::rlimit(100)]
#[verifier::spinoff_prover]
proof fn lemma_wf_forced(n: Seq<u8>, c: Seq<u8>, w: int)
    requires
        valid_name(n),
        c.len() > 0,
        ({
            let line = line_of(n, c);
            let limit = 18 + n.len() + c.len();
            &&& 0 <= w
            &&& 17 + w <= limit
            &&& forall|j: int| 17 <= j < 17 + w ==> is_word_byte(line[j])
            &&& 17 + w < limit ==> !is_word_byte(line[17 + w])
        }),
    ensures
        w == n.len(),
{
    let line = line_of(n, c);
    lemma_raw_shape(n, c, n, n);
    let m = n.len() as int;
    let b = c.len() as int;
    let limit = 18 + m + b;
    let head = line.subrange(17, 17 + m);
    assert(!is_word_byte(32));
    if w < m {
        assert(head[w] == line[17 + w]);
        assert(is_word_byte(n[w]));
        assert(17 + w < limit);
        assert(!is_word_byte(line[17 + w]));
        assert(false);
    }
    if w > m {
        assert(line[17 + m] == 32);
        assert(is_word_byte(line[17 + m]));
        assert(false);
    }
}


/// A line that checks out region by region is the record line of the name
/// and command it carries.
#[verifier::rlimit(100)]
#[verifier::spinoff_prover]
proof fn lemma_assemble(line: Seq<u8>, w: int, cend: int)
    requires
        0 < w,
        17 + w + 1 < cend,
        cend + 15 + 2 * w == line.len(),
        line.subrange(0, 17) == lit_prefix(),
        forall|j: int| 17 <= j < 17 + w ==> is_word_byte(line[j]),
        line[17 + w] == 32,
        line.subrange(cend, cend + 5) == lit_sep(),
        line.subrange(cend + 5, cend + 5 + w) == line.subrange(17, 17 + w),
        line.subrange(cend + 5 + w, cend + 15 + w) == lit_tail(),
        line.subrange(cend + 15 + w, cend + 15 + 2 * w) == line.subrange(17, 17 + w),
    ensures
        line_matches(line, line.subrange(17, 17 + w), line.subrange(18 + w, cend)),
{
    let n = line.subrange(17, 17 + w);
    let c = line.subrange(18 + w, cend);
    assert(n.len() == w && c.len() == cend - 18 - w);
    assert forall|i: int| 0 <= i < n.len() implies is_word_byte(n[i]) by {
        assert(n[i] == line[17 + i]);
    }
    assert(valid_name(n));
    assert(c.len() > 0);
    let raw = raw_line(n, c, n, n);
    assert(raw.len() == 33 + w + (cend - 18 - w) + w + w);
    assert(raw.len() == line.len());
    assert forall|k: int| 0 <= k < line.len() implies line[k] == raw[k] by {
        lemma_raw_shape(n, c, n, n);
        if k < 17 {
            assert(raw.subrange(0, 17)[k] == raw[k]);
            assert(line.subrange(0, 17)[k] == line[k]);
        } else if k < 17 + w {
            assert(raw.subrange(17, 17 + w)[k - 17] == raw[k]);
            assert(n[k - 17] == line[k]);
        } else if k == 17 + w {
            assert(raw[17 + w] == 32);
        } else if k < cend {
            assert(raw.subrange(18 + w, 18 + w + (cend - 18 - w))[k - 18 - w] == raw[k]);
            assert(c[k - 18 - w] == line[k]);
        } else if k < cend + 5 {
            assert(raw.subrange(18 + w + (cend - 18 - w), 23 + w + (cend - 18 - w))[k - cend]
                == raw[k]);
            assert(line.subrange(cend, cend + 5)[k - cend] == line[k]);
        } else if k < cend + 5 + w {
            assert(raw.subrange(23 + w + (cend - 18 - w), 23 + w + (cend - 18 - w) + w)[k - cend
                - 5] == raw[k]);
            assert(line.subrange(cend + 5, cend + 5 + w)[k - cend - 5] == line[k]);
            assert(n[k - cend - 5] == line.subrange(cend + 5, cend + 5 + w)[k - cend - 5]);
        } else if k < cend + 15 + w {
            assert(raw.subrange(23 + w + (cend - 18 - w) + w, 33 + w + (cend - 18 - w) + w)[k
                - cend - 5 - w] == raw[k]);
            assert(line.subrange(cend + 5 + w, cend + 15 + w)[k - cend - 5 - w] == line[k]);
        } else {
            assert(raw.subrange(33 + w + (cend - 18 - w) + w, 33 + w + (cend - 18 - w) + w + w)[k
                - cend - 15 - w] == raw[k]);
            assert(line.subrange(cend + 15 + w, cend + 15 + 2 * w)[k - cend - 15 - w] == line[k]);
            assert(n[k - cend - 15 - w] == line.subrange(cend + 15 + w, cend + 15 + 2 * w)[k - cend
                - 15 - w]);
        }
    }
    assert(line =~= raw);
}


/// A failed trailing-name scan rules out a record line.
#[verifier::rlimit(100)]
#[verifier::spinoff_prover]
proof fn lemma_no_rec_ws(line: Seq<u8>, ws: int)
    requires
        0 <= ws <= line.len(),
        forall|j: int| line.len() - ws <= j < line.len() ==> is_word_byte(line[j]),
        ws < line.len() ==> !is_word_byte(line[line.len() - ws - 1]),
        ws == 0 || line.len() - ws < 10,
    ensures
        !some_record(line),
{
    if some_record(line) {
        let (n, c) = choose|n: Seq<u8>, c: Seq<u8>| line_matches(line, n, c);
        lemma_ws_forced(n, c, ws);
        lemma_raw_shape(n, c, n, n);
        assert(false);
    }
}

/// A wrong tail literal rules out a record line.
#[verifier::rlimit(100)]
#[verifier::spinoff_prover]
proof fn lemma_no_rec_tail(line: Seq<u8>, ws: int)
    requires
        0 <= ws <= line.len(),
        forall|j: int| line.len() - ws <= j < line.len() ==> is_word_byte(line[j]),
        ws < line.len() ==> !is_word_byte(line[line.len() - ws - 1]),
        ws >= 1,
        line.len() - ws >= 10,
        line.subrange(line.len() - ws - 10, line.len() - ws) != lit_tail(),
    ensures
        !some_record(line),
{
    if some_record(line) {
        let (n, c) = choose|n: Seq<u8>, c: Seq<u8>| line_matches(line, n, c);
        lemma_ws_forced(n, c, ws);
        lemma_raw_shape(n, c, n, n);
        let m = n.len() as int;
        let b = c.len() as int;
        assert(line.len() - ws - 10 == 23 + m + b + m);
        assert(false);
    }
}

/// A failed log-stem scan rules out a record line.
#[verifier::rlimit(100)]
#[verifier::spinoff_prover]
proof fn lemma_no_rec_wb(line: Seq<u8>, ws: int, wb: int)
    requires
        0 <= ws <= line.len(),
        forall|j: int| line.len() - ws <= j < line.len() ==> is_word_byte(line[j]),
        ws < line.len() ==> !is_word_byte(line[line.len() - ws - 1]),
        ws >= 1,
        line.len() - ws >= 10,
        0 <= wb <= line.len() - ws - 10,
        forall|j: int|
            line.len() - ws - 10 - wb <= j < line.len() - ws - 10 ==> is_word_byte(line[j]),
        wb < line.len() - ws - 10 ==> !is_word_byte(line[line.len() - ws - 10 - wb - 1]),
        wb == 0 || line.len() - ws - 10 - wb < 5,
    ensures
        !some_record(line),
{
    if some_record(line) {
        let (n, c) = choose|n: Seq<u8>, c: Seq<u8>| line_matches(line, n, c);
        lemma_ws_forced(n, c, ws);
        lemma_wb_forced(n, c, wb);
        lemma_raw_shape(n, c, n, n);
        let m = n.len() as int;
        let b = c.len() as int;
        assert(line.len() - ws - 10 - wb == 23 + m + b);
        assert(false);
    }
}

/// A wrong separator literal, or no room for the fixed prefix, rules out a
/// record line.
#[verifier::rlimit(100)]
#[verifier::spinoff_prover]
proof fn lemma_no_rec_sep(line: Seq<u8>, ws: int, wb: int)
    requires
        0 <= ws <= line.len(),
        forall|j: int| line.len() - ws <= j < line.len() ==> is_word_byte(line[j]),
        ws < line.len() ==> !is_word_byte(line[line.len() - ws - 1]),
        ws >= 1,
        line.len() - ws >= 10,
        0 <= wb <= line.len() - ws - 10,
        forall|j: int|
            line.len() - ws - 10 - wb <= j < line.len() - ws - 10 ==> is_word_byte(line[j]),
        wb < line.len() - ws - 10 ==> !is_word_byte(line[line.len() - ws - 10 - wb - 1]),
        wb >= 1,
        line.len() - ws - 10 - wb >= 5,
        line.subrange(
            line.len() - ws - 10 - wb - 5,
            line.len() - ws - 10 - wb,
        ) != lit_sep() || line.len() - ws - 10 - wb - 5 < 17,
    ensures
        !some_record(line),
{
    if some_record(line) {
        let (n, c) = choose|n: Seq<u8>, c: Seq<u8>| line_matches(line, n, c);
        lemma_ws_forced(n, c, ws);
        lemma_wb_forced(n, c, wb);
        lemma_raw_shape(n, c, n, n);
        let m = n.len() as int;
        let b = c.len() as int;
        assert(line.len() - ws - 10 - wb - 5 == 18 + m + b);
        assert(false);
    }
}

/// A wrong opening literal rules out a record line.
#[verifier::rlimit(100)]
#[verifier::spinoff_prover]
proof fn lemma_no_rec_prefix(line: Seq<u8>)
    requires
        line.len() >= 17,
        line.subrange(0, 17) != lit_prefix(),
    ensures
        !some_record(line),
{
    if some_record(line) {
        let (n, c) = choose|n: Seq<u8>, c: Seq<u8>| line_matches(line, n, c);
        lemma_raw_shape(n, c, n, n);
        assert(false);
    }
}

/// With the scans and literals established, the three scanned name lengths
/// and the label's closing space are all forced; any disagreement rules out
/// a record line.
#[verifier::rlimit(100)]
#[verifier::spinoff_prover]
proof fn lemma_no_rec_fields(line: Seq<u8>, ws: int, wb: int, wf: int)
    requires
        0 <= ws <= line.len(),
        forall|j: int| line.len() - ws <= j < line.len() ==> is_word_byte(line[j]),
        ws < line.len() ==> !is_word_byte(line[line.len() - ws - 1]),
        ws >= 1,
        line.len() - ws >= 10,
        0 <= wb <= line.len() - ws - 10,
        forall|j: int|
            line.len() - ws - 10 - wb <= j < line.len() - ws - 10 ==> is_word_byte(line[j]),
        wb < line.len() - ws - 10 ==> !is_word_byte(line[line.len() - ws - 10 - wb - 1]),
        wb >= 1,
        line.len() - ws - 10 - wb >= 5,
        ({
            let end = line.len() - ws - 10 - wb - 5;
            &&& end >= 17
            &&& 0 <= wf
            &&& 17 + wf <= end
            &&& forall|j: int| 17 <= j < 17 + wf ==> is_word_byte(line[j])
            &&& 17 + wf < end ==> !is_word_byte(line[17 + wf])
            &&& {
                ||| wf == 0
                ||| 17 + wf + 1 >= end
                ||| line[17 + wf] != 32
                ||| wf != wb
                ||| wf != ws
                ||| line.subrange(17, 17 + wf) != line.subrange(end + 5, end + 5 + wf)
                ||| line.subrange(17, 17 + wf) != line.subrange(
                    line.len() - ws,
                    line.len() - ws + wf,
                )
            }
        }),
    ensures
        !some_record(line),
{
    if some_record(line) {
        let (n, c) = choose|n: Seq<u8>, c: Seq<u8>| line_matches(line, n, c);
        lemma_ws_forced(n, c, ws);
        lemma_wb_forced(n, c, wb);
        lemma_raw_shape(n, c, n, n);
        let m = n.len() as int;
        let b = c.len() as int;
        let end = line.len() - ws - 10 - wb - 5;
        assert(end == 18 + m + b);
        lemma_wf_forced(n, c, wf);
        assert(line[17 + m] == 32);
        assert(line.subrange(17, 17 + m) == n);
        assert(line.subrange(23 + m + b, 23 + m + b + m) == n);
        assert(end + 5 == 23 + m + b);
        assert(line.subrange(33 + m + b + m, 33 + m + b + m + m) == n);
        assert(line.len() - ws == 33 + m + b + m);
        assert(false);
    }
}

/// Parses one line as a record line. Returns the name and command exactly
/// when the line is the record line of some service; any malformed line —
/// including one whose three name fields disagree — is rejected.
#[verifier::rlimit(100)]
#[verifier::spinoff_prover]
pub fn parse_line(line: &Vec<u8>) -> (r: Option<(Vec<u8>, Vec<u8>)>)
    ensures
        match r {
            Some(nc) => line_matches(line@, nc.0@, nc.1@),
            None => !some_record(line@),
        },
{
    let len = line.len();
    let ws = scan_word_back(line, len);
    if ws == 0 || len - ws < 10 {
        proof {
            lemma_no_rec_ws(line@, ws as int);
        }
        return None;
    }
    let p2 = len - ws - 10;
    proof {
        assert(lit_tail().len() == 10 && lit_sep().len() == 5 && lit_prefix().len() == 17);
    }
    if !bytes_eq_at(line, p2, &lit_tail_vec()) {
        proof {
            lemma_no_rec_tail(line@, ws as int);
        }
        return None;
    }
    let wb = scan_word_back(line, p2);
    if wb == 0 || p2 - wb < 5 {
        proof {
            lemma_no_rec_wb(line@, ws as int, wb as int);
        }
        return None;
    }
    let p1 = p2 - wb;
    if !bytes_eq_at(line, p1 - 5, &lit_sep_vec()) {
        proof {
            lemma_no_rec_sep(line@, ws as int, wb as int);
        }
        return None;
    }
    let end = p1 - 5;
    if end < 17 {
        proof {
            lemma_no_rec_sep(line@, ws as int, wb as int);
        }
        return None;
    }
    if !bytes_eq_at(line, 0, &lit_prefix_vec()) {
        proof {
            lemma_no_rec_prefix(line@);
        }
        return None;
    }
    let wf = scan_word_fwd(line, end);
    if wf == 0 || 17 + wf + 1 >= end {
        proof {
            lemma_no_rec_fields(line@, ws as int, wb as int, wf as int);
        }
        return None;
    }
    if line[17 + wf] != 32 {
        proof {
            lemma_no_rec_fields(line@, ws as int, wb as int, wf as int);
        }
        return None;
    }
    let start = 17 + wf + 1;
    if wf != wb || wf != ws {
        proof {
            lemma_no_rec_fields(line@, ws as int, wb as int, wf as int);
        }
        return None;
    }
    if !regions_eq(line, 17, p1, wf) || !regions_eq(line, 17, len - ws, wf) {
        proof {
            assert(p1 == end + 5);
            lemma_no_rec_fields(line@, ws as int, wb as int, wf as int);
        }
        return None;
    }
    let name = copy_region(line, 17, wf);
    let cmd = copy_region(line, start, end - start);
    proof {
        lemma_assemble(line@, wf as int, end as int);
    }
    Some((name, cmd))
}

/// The views of a sequence of byte vectors.
pub open spec fn views_of(v: Seq<Vec<u8>>) -> Seq<Seq<u8>> {
    v.map_values(|x: Vec<u8>| x@)
}

/// Splitting always yields at least one line.
proof fn lemma_file_lines_nonempty(s: Seq<u8>)
    ensures
        file_lines(s).len() >= 1,
    decreases s.len(),
{
    if s.len() > 0 && s[0] != 10 {
        lemma_file_lines_nonempty(s.skip(1));
    }
}

/// Prepending newline-free bytes extends the first line and nothing else.
proof fn lemma_file_lines_prepend(a: Seq<u8>, s: Seq<u8>)
    requires
        forall|i: int| 0 <= i < a.len() ==> a[i] != 10,
    ensures
        file_lines(a + s) == seq![a + file_lines(s)[0]] + file_lines(s).skip(1),
    decreases a.len(),
{
    lemma_file_lines_nonempty(s);
    let fls = file_lines(s);
    if a.len() == 0 {
        assert(a + s =~= s);
        assert(a + fls[0] =~= fls[0]);
        assert(seq![fls[0]] + fls.skip(1) =~= fls);
    } else {
        let t = a + s;
        assert(t[0] == a[0]);
        assert(t.skip(1) =~= a.skip(1) + s);
        lemma_file_lines_prepend(a.skip(1), s);
        let fl1 = file_lines(a.skip(1) + s);
        assert(fl1 == seq![a.skip(1) + fls[0]] + fls.skip(1));
        assert(file_lines(t) == seq![seq![t[0]] + fl1[0]] + fl1.skip(1));
        assert(fl1[0] == a.skip(1) + fls[0]);
        assert(fl1.skip(1) =~= fls.skip(1));
        assert(seq![a[0]] + (a.skip(1) + fls[0]) =~= a + fls[0]);
        assert(file_lines(t) =~= seq![a + fls[0]] + fls.skip(1));
    }
}

/// Splits a byte text into its lines, as the file format reads them.
pub fn split_lines(bytes: &Vec<u8>) -> (r: Vec<Vec<u8>>)
    ensures
        views_of(r@) == file_lines(bytes@),
        forall|k: int, j: int|
            0 <= k < r@.len() && 0 <= j < r@[k]@.len() ==> (#[trigger] r@[k]@[j]) != 10,
{
    let n = bytes.len();
    let mut done: Vec<Vec<u8>> = Vec::new();
    let mut cur: Vec<u8> = Vec::new();
    let mut i: usize = 0;
    proof {
        lemma_file_lines_nonempty(bytes@);
        assert(bytes@.skip(0) =~= bytes@);
        assert(views_of(done@) =~= Seq::<Seq<u8>>::empty());
        assert(cur@ + file_lines(bytes@)[0] =~= file_lines(bytes@)[0]);
        assert(views_of(done@) + seq![file_lines(bytes@)[0]] + file_lines(bytes@).skip(1)
            =~= file_lines(bytes@));
    }
    while i < n
        invariant
            i <= n,
            n == bytes@.len(),
            forall|j: int| 0 <= j < cur@.len() ==> cur@[j] != 10,
            forall|k: int, j: int|
                0 <= k < done@.len() && 0 <= j < done@[k]@.len() ==> (#[trigger] done@[k]@[j])
                    != 10,
            file_lines(bytes@) == views_of(done@) + seq![
                cur@ + file_lines(bytes@.skip(i as int))[0],
            ] + file_lines(bytes@.skip(i as int)).skip(1),
        decreases n - i,
    {
        let ghost rest = bytes@.skip(i as int);
        let ghost restp = bytes@.skip(i + 1);
        proof {
            assert(rest[0] == bytes@[i as int]);
            assert(rest.skip(1) =~= restp);
            lemma_file_lines_nonempty(restp);
        }
        let b = bytes[i];
        if b == 10 {
            let ghost old_done = done@;
            let ghost old_cur = cur@;
            done.push(cur);
            cur = Vec::new();
            proof {
                assert(file_lines(rest) == seq![Seq::<u8>::empty()] + file_lines(restp));
                assert(views_of(done@) =~= views_of(old_done).push(old_cur));
                assert(old_cur + file_lines(rest)[0] =~= old_cur);
                assert(file_lines(rest).skip(1) =~= file_lines(restp));
                assert(cur@ + file_lines(restp)[0] =~= file_lines(restp)[0]);
                assert(seq![file_lines(restp)[0]] + file_lines(restp).skip(1) =~= file_lines(
                    restp,
                ));
                assert(views_of(old_done) + seq![old_cur] + file_lines(restp) =~= views_of(done@)
                    + seq![cur@ + file_lines(restp)[0]] + file_lines(restp).skip(1));
                assert(views_of(old_done) + seq![old_cur + file_lines(rest)[0]] + file_lines(
                    rest,
                ).skip(1) =~= views_of(old_done) + seq![old_cur] + file_lines(restp));
            }
        } else {
            let ghost old_cur = cur@;
            cur.push(b);
            proof {
                assert(file_lines(rest) == seq![seq![rest[0]] + file_lines(restp)[0]]
                    + file_lines(restp).skip(1));
                assert(file_lines(rest)[0] == seq![rest[0]] + file_lines(restp)[0]);
                assert(file_lines(rest).skip(1) =~= file_lines(restp).skip(1));
                assert(cur@ + file_lines(restp)[0] =~= old_cur + file_lines(rest)[0]);
                assert(views_of(done@) + seq![cur@ + file_lines(restp)[0]] + file_lines(
                    restp,
                ).skip(1) =~= views_of(done@) + seq![old_cur + file_lines(rest)[0]] + file_lines(
                    rest,
                ).skip(1));
            }
        }
        i += 1;
    }
    proof {
        assert(bytes@.skip(n as int) =~= Seq::<u8>::empty());
        assert(file_lines(Seq::<u8>::empty()) == seq![Seq::<u8>::empty()]);
        assert(cur@ + file_lines(bytes@.skip(n as int))[0] =~= cur@);
        assert(file_lines(bytes@.skip(n as int)).skip(1) =~= Seq::<Seq<u8>>::empty());
    }
    let ghost old_done = done@;
    let ghost old_cur = cur@;
    done.push(cur);
    proof {
        assert(views_of(done@) =~= views_of(old_done).push(old_cur));
        assert(views_of(old_done) + seq![old_cur] + Seq::<Seq<u8>>::empty() =~= views_of(
            old_done,
        ).push(old_cur));
        assert(views_of(done@) == file_lines(bytes@));
    }
    done
}


/// The registry file did not match the record pattern, or the three name
/// occurrences of a line disagreed.
#[derive(Debug)]
pub struct FormatError;

/// Parses the raw bytes of a registry file. The first non-blank line is the
/// header and is skipped; every further non-blank line must be a record
/// line, inserted in order with later duplicates overwriting earlier ones.
/// Fails exactly when some non-header line is not a well-formed record.
pub fn parse_service_file(bytes: &Vec<u8>) -> (r: Result<Registry, FormatError>)
    ensures
        match r {
            Ok(reg) => reg.wf() && parse_spec(bytes@) == Some(reg@),
            Err(_) => parse_spec(bytes@) is None,
        },
{
    let lines = split_lines(bytes);
    let mut nb: Vec<Vec<u8>> = Vec::new();
    let mut i: usize = 0;
    proof {
        assert(views_of(lines@).subrange(0, 0) =~= Seq::<Seq<u8>>::empty());
        assert(views_of(nb@) =~= nonblank(views_of(lines@).subrange(0, 0)));
    }
    while i < lines.len()
        invariant
            i <= lines@.len(),
            views_of(lines@) == file_lines(bytes@),
            forall|k: int, j: int|
                0 <= k < lines@.len() && 0 <= j < lines@[k]@.len() ==> (
                #[trigger] lines@[k]@[j]) != 10,
            forall|k: int, j: int|
                0 <= k < nb@.len() && 0 <= j < nb@[k]@.len() ==> (#[trigger] nb@[k]@[j]) != 10,
            views_of(nb@) == nonblank(views_of(lines@).subrange(0, i as int)),
        decreases lines@.len() - i,
    {
        let ghost pre = views_of(lines@).subrange(0, i as int);
        let ghost post = views_of(lines@).subrange(0, i + 1);
        proof {
            assert(post.drop_last() =~= pre);
            assert(post.last() == lines@[i as int]@);
        }
        let line = &lines[i];
        if line.len() > 0 {
            let ghost old_nb = nb@;
            let copy = copy_region(line, 0, line.len());
            proof {
                assert(copy@ =~= lines@[i as int]@);
            }
            nb.push(copy);
            proof {
                assert(views_of(nb@) =~= views_of(old_nb).push(lines@[i as int]@));
            }
        }
        i += 1;
    }
    proof {
        assert(views_of(lines@).subrange(0, lines@.len() as int) =~= views_of(lines@));
    }
    if nb.len() == 0 {
        return Ok(Registry::new());
    }
    let mut reg = Registry::new();
    let mut k: usize = 1;
    proof {
        assert(views_of(nb@).subrange(1, 1) =~= Seq::<Seq<u8>>::empty());
    }
    while k < nb.len()
        invariant
            1 <= k <= nb@.len(),
            reg.wf(),
            views_of(nb@) == nonblank(file_lines(bytes@)),
            nb@.len() > 0,
            forall|kk: int, j: int|
                0 <= kk < nb@.len() && 0 <= j < nb@[kk]@.len() ==> (#[trigger] nb@[kk]@[j]) != 10,
            records_map(views_of(nb@).subrange(1, k as int)) == Some(reg@),
        decreases nb@.len() - k,
    {
        let ghost pre = views_of(nb@).subrange(1, k as int);
        let ghost post = views_of(nb@).subrange(1, k + 1);
        proof {
            assert(post.drop_last() =~= pre);
            assert(post.last() == nb@[k as int]@);
        }
        match parse_line(&nb[k]) {
            Some((name, cmd)) => {
                proof {
                    assert(line_matches(nb@[k as int]@, name@, cmd@));
                    lemma_record_of_line(name@, cmd@);
                    assert(valid_command(cmd@)) by {
                        assert(cmd@.len() > 0);
                        lemma_raw_shape(name@, cmd@, name@, cmd@);
                        assert forall|j: int| 0 <= j < cmd@.len() implies cmd@[j] != 10 by {
                            let line = nb@[k as int]@;
                            assert(line.subrange(
                                18 + name@.len() as int,
                                18 + name@.len() + cmd@.len() as int,
                            ) == cmd@);
                            assert(line.subrange(
                                18 + name@.len() as int,
                                18 + name@.len() + cmd@.len() as int,
                            )[j] == line[18 + name@.len() + j]);
                        }
                    }
                }
                let ghost before = reg@;
                if reg.contains(&name) {
                    reg.remove_entry(&name);
                }
                reg.insert_entry(name, cmd);
                proof {
                    assert(reg@ =~= before.insert(name@, cmd@));
                    assert(record_of(post.last()) == (name@, cmd@));
                }
            },
            None => {
                proof {
                    let whole = views_of(nb@).subrange(1, nb@.len() as int);
                    assert(whole[k - 1] == nb@[k as int]@);
                    lemma_records_map_bad(whole, k - 1);
                    let ls = nonblank(file_lines(bytes@));
                    assert(ls == views_of(nb@));
                    assert(views_of(nb@).len() == nb@.len());
                    assert(ls.skip(1) == ls.subrange(1, ls.len() as int));
                    assert(ls.skip(1) =~= whole);
                }
                return Err(FormatError);
            },
        }
        k += 1;
    }
    proof {
        let ls = nonblank(file_lines(bytes@));
        assert(ls == views_of(nb@));
        assert(views_of(nb@).len() == nb@.len());
        assert(ls.skip(1) == ls.subrange(1, ls.len() as int));
        assert(ls.skip(1) =~= views_of(nb@).subrange(1, nb@.len() as int));
    }
    Ok(reg)
}


/// A newline-free text is a single line.
proof fn lemma_file_lines_single(a: Seq<u8>)
    requires
        forall|i: int| 0 <= i < a.len() ==> a[i] != 10,
    ensures
        file_lines(a) == seq![a],
{
    lemma_file_lines_prepend(a, Seq::<u8>::empty());
    assert(a + Seq::<u8>::empty() =~= a);
    assert(file_lines(Seq::<u8>::empty()) == seq![Seq::<u8>::empty()]);
    assert(seq![a + file_lines(Seq::<u8>::empty())[0]] + file_lines(
        Seq::<u8>::empty(),
    ).skip(1) =~= seq![a]);
}

/// Splitting distributes over a newline.
proof fn lemma_file_lines_concat(x: Seq<u8>, y: Seq<u8>)
    ensures
        file_lines(x + seq![10u8] + y) == file_lines(x) + file_lines(y),
    decreases x.len(),
{
    let t = x + seq![10u8] + y;
    if x.len() == 0 {
        assert(t =~= seq![10u8] + y);
        assert(t[0] == 10);
        assert(t.skip(1) =~= y);
        assert(file_lines(t) == seq![Seq::<u8>::empty()] + file_lines(y));
        assert(file_lines(x) == seq![Seq::<u8>::empty()]);
    } else {
        let xp = x.skip(1);
        lemma_file_lines_concat(xp, y);
        lemma_file_lines_nonempty(xp);
        assert(t[0] == x[0]);
        assert(t.skip(1) =~= xp + seq![10u8] + y);
        let u = file_lines(xp + seq![10u8] + y);
        assert(u == file_lines(xp) + file_lines(y));
        if x[0] == 10 {
            assert(file_lines(t) == seq![Seq::<u8>::empty()] + u);
            assert(file_lines(x) == seq![Seq::<u8>::empty()] + file_lines(xp));
            assert(seq![Seq::<u8>::empty()] + (file_lines(xp) + file_lines(y)) =~= (seq![
                Seq::<u8>::empty(),
            ] + file_lines(xp)) + file_lines(y));
        } else {
            assert(file_lines(t) == seq![seq![t[0]] + u[0]] + u.skip(1));
            assert(u[0] == file_lines(xp)[0]);
            assert(u.skip(1) =~= file_lines(xp).skip(1) + file_lines(y));
            assert(file_lines(x) == seq![seq![x[0]] + file_lines(xp)[0]] + file_lines(
                xp,
            ).skip(1));
            assert(seq![seq![x[0]] + file_lines(xp)[0]] + (file_lines(xp).skip(1) + file_lines(
                y,
            )) =~= (seq![seq![x[0]] + file_lines(xp)[0]] + file_lines(xp).skip(1)) + file_lines(
                y,
            ));
        }
    }
}

/// None of the fixed pieces of the format holds a newline.
proof fn lemma_lits_no_newline()
    ensures
        forall|i: int| 0 <= i < 17 ==> lit_prefix()[i] != 10,
        forall|i: int| 0 <= i < 5 ==> lit_sep()[i] != 10,
        forall|i: int| 0 <= i < 10 ==> lit_tail()[i] != 10,
        forall|i: int| 0 <= i < 11 ==> lit_header()[i] != 10,
{
}

/// A record line of a well-formed service holds no newline.
proof fn lemma_line_no_newline(n: Seq<u8>, c: Seq<u8>)
    requires
        valid_name(n),
        valid_command(c),
    ensures
        forall|i: int| 0 <= i < line_of(n, c).len() ==> line_of(n, c)[i] != 10,
{
    let line = line_of(n, c);
    lemma_raw_shape(n, c, n, n);
    lemma_lits_no_newline();
    let m = n.len() as int;
    let b = c.len() as int;
    assert forall|i: int| 0 <= i < line.len() implies line[i] != 10 by {
        assert(!is_word_byte(10));
        if i < 17 {
            assert(line.subrange(0, 17)[i] == line[i]);
        } else if i < 17 + m {
            assert(line.subrange(17, 17 + m)[i - 17] == line[i]);
        } else if i == 17 + m {
        } else if i < 18 + m + b {
            assert(line.subrange(18 + m, 18 + m + b)[i - 18 - m] == line[i]);
        } else if i < 23 + m + b {
            assert(line.subrange(18 + m + b, 23 + m + b)[i - 18 - m - b] == line[i]);
        } else if i < 23 + m + b + m {
            assert(line.subrange(23 + m + b, 23 + m + b + m)[i - 23 - m - b] == line[i]);
        } else if i < 33 + m + b + m {
            assert(line.subrange(23 + m + b + m, 33 + m + b + m)[i - 23 - 2 * m - b] == line[i]);
        } else {
            assert(line.subrange(33 + m + b + m, 33 + m + b + m + m)[i - 33 - 2 * m - b]
                == line[i]);
        }
    }
}

/// The record lines of a sequence of entries, in order.
pub open spec fn lines_of(s: Seq<ServiceEntry>) -> Seq<Seq<u8>>
    decreases s.len(),
{
    if s.len() == 0 {
        Seq::empty()
    } else {
        lines_of(s.drop_last()).push(line_of(s.last().name@, s.last().command@))
    }
}

/// Each position of `lines_of` is the record line of the matching entry.
proof fn lemma_lines_of_index(s: Seq<ServiceEntry>, i: int)
    requires
        0 <= i < s.len(),
    ensures
        lines_of(s).len() == s.len(),
        lines_of(s)[i] == line_of(s[i].name@, s[i].command@),
    decreases s.len(),
{
    lemma_lines_of_len(s);
    if i < s.len() - 1 {
        lemma_lines_of_index(s.drop_last(), i);
    }
}

proof fn lemma_lines_of_len(s: Seq<ServiceEntry>)
    ensures
        lines_of(s).len() == s.len(),
    decreases s.len(),
{
    if s.len() > 0 {
        lemma_lines_of_len(s.drop_last());
    }
}

/// The serialized text splits back into the header and the record lines.
proof fn lemma_text_lines(s: Seq<ServiceEntry>)
    requires
        forall|i: int|
            0 <= i < s.len() ==> valid_name(#[trigger] s[i].name@) && valid_command(
                s[i].command@,
            ),
    ensures
        file_lines(lines_text(s)) == seq![lit_header()] + lines_of(s),
    decreases s.len(),
{
    lemma_lits_no_newline();
    if s.len() == 0 {
        lemma_file_lines_single(lit_header());
        assert(seq![lit_header()] + lines_of(s) =~= seq![lit_header()]);
    } else {
        let dl = s.drop_last();
        assert forall|i: int| 0 <= i < dl.len() implies valid_name(#[trigger] dl[i].name@)
            && valid_command(dl[i].command@) by {
            assert(dl[i] == s[i]);
        }
        lemma_text_lines(dl);
        let n = s.last().name@;
        let c = s.last().command@;
        assert(s[s.len() - 1] == s.last());
        assert(valid_name(n) && valid_command(c));
        lemma_line_no_newline(n, c);
        lemma_file_lines_single(line_of(n, c));
        lemma_file_lines_concat(lines_text(dl), line_of(n, c));
        assert(lines_text(s) == lines_text(dl) + seq![10u8] + line_of(n, c));
        assert(file_lines(lines_text(s)) == (seq![lit_header()] + lines_of(dl)) + seq![
            line_of(n, c),
        ]);
        assert((seq![lit_header()] + lines_of(dl)) + seq![line_of(n, c)] =~= seq![lit_header()]
            + lines_of(dl).push(line_of(n, c)));
    }
}

/// Filtering keeps a sequence of non-blank lines as it is.
proof fn lemma_nonblank_id(ls: Seq<Seq<u8>>)
    requires
        forall|i: int| 0 <= i < ls.len() ==> (#[trigger] ls[i]).len() > 0,
    ensures
        nonblank(ls) == ls,
    decreases ls.len(),
{
    if ls.len() > 0 {
        let dl = ls.drop_last();
        assert forall|i: int| 0 <= i < dl.len() implies (#[trigger] dl[i]).len() > 0 by {
            assert(dl[i] == ls[i]);
        }
        lemma_nonblank_id(dl);
        assert(ls[ls.len() - 1] == ls.last());
        assert(nonblank(ls) =~= ls);
    } else {
        assert(nonblank(ls) =~= ls);
    }
}

/// The record lines of well-formed entries decode back to their map.
proof fn lemma_records_of_lines(s: Seq<ServiceEntry>)
    requires
        forall|i: int|
            0 <= i < s.len() ==> valid_name(#[trigger] s[i].name@) && valid_command(
                s[i].command@,
            ),
    ensures
        records_map(lines_of(s)) == Some(map_of(s)),
    decreases s.len(),
{
    if s.len() > 0 {
        let dl = s.drop_last();
        assert forall|i: int| 0 <= i < dl.len() implies valid_name(#[trigger] dl[i].name@)
            && valid_command(dl[i].command@) by {
            assert(dl[i] == s[i]);
        }
        lemma_records_of_lines(dl);
        let n = s.last().name@;
        let c = s.last().command@;
        assert(s[s.len() - 1] == s.last());
        lemma_record_of_line(n, c);
        lemma_lines_of_len(dl);
        assert(lines_of(s).drop_last() =~= lines_of(dl));
        assert(lines_of(s).last() == line_of(n, c));
    }
}

/// Round trip: serializing any well-formed registry and parsing the result
/// yields exactly the registry's mapping.
pub proof fn lemma_round_trip(reg: Registry)
    requires
        reg.wf(),
    ensures
        parse_spec(lines_text(reg.entries@)) == Some(reg@),
{
    let s = reg.entries@;
    lemma_text_lines(s);
    lemma_lines_of_len(s);
    let ls = seq![lit_header()] + lines_of(s);
    assert forall|i: int| 0 <= i < ls.len() implies (#[trigger] ls[i]).len() > 0 by {
        if i == 0 {
            assert(ls[0] == lit_header());
        } else {
            lemma_lines_of_index(s, i - 1);
            assert(ls[i] == line_of(s[i - 1].name@, s[i - 1].command@));
            lemma_raw_shape(s[i - 1].name@, s[i - 1].command@, s[i - 1].name@, s[i - 1].name@);
        }
    }
    lemma_nonblank_id(ls);
    lemma_lines_of_len(s);
    assert(ls.len() > 0);
    assert(ls.skip(1) =~= lines_of(s));
    lemma_records_of_lines(s);
}


/// Format integrity: a line whose three name fields do not all agree is not
/// a record line, so parsing rejects any file that contains it.
pub proof fn lemma_mismatched_names(n1: Seq<u8>, c: Seq<u8>, n2: Seq<u8>, n3: Seq<u8>)
    requires
        valid_name(n1),
        valid_name(n2),
        valid_name(n3),
        c.len() > 0,
        !(n1 == n2 && n1 == n3),
    ensures
        !some_record(raw_line(n1, c, n2, n3)),
{
    if some_record(raw_line(n1, c, n2, n3)) {
        let (n, cc) = choose|n: Seq<u8>, cc: Seq<u8>|
            line_matches(raw_line(n1, c, n2, n3), n, cc);
        lemma_match_forces(n1, c, n2, n3, n, cc);
        assert(false);
    }
}

} // verus!

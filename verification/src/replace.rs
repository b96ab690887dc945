use vstd::prelude::*;
use vstd::string::StringSliceAdditionalSpecFns;
use vstd::utf8::{encode_utf8, is_char_boundary, valid_utf8};

use crate::env::Environment;
use crate::error::Error;
use crate::matcher::is_meta_char;
use crate::pattern::Pattern;
use crate::source::{append_range, SourceText};
use crate::tree::Root;

verus! {

/// The UTF-8 encoding of a concatenation is the concatenation of the
/// encodings.
pub proof fn lemma_encode_utf8_concat(a: Seq<char>, b: Seq<char>)
    ensures
        encode_utf8(a + b) == encode_utf8(a) + encode_utf8(b),
    decreases a.len(),
{
    if a.len() == 0 {
        assert(a + b =~= b);
        assert(encode_utf8(a) + encode_utf8(b) =~= encode_utf8(b));
    } else {
        assert((a + b).drop_first() =~= a.drop_first() + b);
        assert((a + b)[0] == a[0]);
        lemma_encode_utf8_concat(a.drop_first(), b);
        assert(encode_utf8(a + b) =~= encode_utf8(a) + encode_utf8(b));
    }
}

/// Relies on String::from_utf8: it accepts exactly the valid UTF-8 byte
/// sequences, and the accepted string carries exactly the given bytes.
#[verifier::external_body]
fn string_from_utf8(v: Vec<u8>) -> (r: Option<String>)
    ensures
        r is Some <==> valid_utf8(v@),
        r is Some ==> encode_utf8(r->Some_0@) == v@,
{
    match String::from_utf8(v) {
        Ok(s) => Some(s),
        Err(_) => None,
    }
}

/// Where the run of metavariable-name bytes that starts at `k` ends.
pub open spec fn run_end(tpl: Seq<u8>, k: int) -> int
    decreases tpl.len() - k,
    when 0 <= k <= tpl.len()
{
    if k < tpl.len() && is_meta_char(tpl[k]) {
        run_end(tpl, k + 1)
    } else {
        k
    }
}

/// Instantiation of a template from position `k` on: literal bytes are
/// copied; a `$` followed by a name run is replaced by the bytes of the
/// node the environment binds under that name; nothing comes back when a
/// referenced name is unbound.
pub open spec fn render_from(tpl: Seq<u8>, k: int, env: Map<Seq<u8>, int>, c: Root) -> Option<
    Seq<u8>,
>
    decreases tpl.len() - k,
    when 0 <= k <= tpl.len()
    via render_from_decreases
{
    if k >= tpl.len() {
        Some(Seq::empty())
    } else if tpl[k] == 36 && run_end(tpl, k + 1) > k + 1 {
        let e = run_end(tpl, k + 1);
        let name = tpl.subrange(k + 1, e);
        if env.contains_key(name) {
            match render_from(tpl, e, env, c) {
                Some(rest) => Some(c.node_bytes(env[name]) + rest),
                None => None,
            }
        } else {
            None
        }
    } else {
        match render_from(tpl, k + 1, env, c) {
            Some(rest) => Some(seq![tpl[k]] + rest),
            None => None,
        }
    }
}

#[via_fn]
proof fn render_from_decreases(tpl: Seq<u8>, k: int, env: Map<Seq<u8>, int>, c: Root) {
    if 0 <= k < tpl.len() {
        lemma_run_end_bounds(tpl, k + 1);
    }
}

/// The name run neither moves backward nor leaves the template, covers
/// only name bytes, and stops at the first byte that is no name byte.
pub proof fn lemma_run_end_bounds(tpl: Seq<u8>, k: int)
    requires
        0 <= k <= tpl.len(),
    ensures
        k <= run_end(tpl, k) <= tpl.len(),
        forall|m: int| k <= m < run_end(tpl, k) ==> is_meta_char(#[trigger] tpl[m]),
        run_end(tpl, k) < tpl.len() ==> !is_meta_char(tpl[run_end(tpl, k)]),
    decreases tpl.len() - k,
{
    if k < tpl.len() && is_meta_char(tpl[k]) {
        lemma_run_end_bounds(tpl, k + 1);
    }
}

/// A replacement template: text whose metavariable references are filled
/// in from a capture environment.
pub struct Replacer {
    pub text: SourceText,
}

impl Replacer {
    pub open spec fn wf(&self) -> bool {
        self.text.wf()
    }

    pub fn new(template: &str) -> (r: Replacer)
        ensures
            r.wf(),
            r.text.text@ == template@,
    {
        Replacer { text: SourceText::new(template) }
    }

    /// Instantiates the template under the captures of one match against
    /// the tree `c`. A reference to an unbound name is refused; so is a
    /// capture whose byte span does not align with character boundaries,
    /// since only then the result is no text.
    pub fn generate_replacement(&self, env: &Environment, c: &Root) -> (r: Result<String, Error>)
        requires
            self.wf(),
            c.wf(),
            env.wf_for(c.nodes@.len() as int),
        ensures
            ({
                let out = render_from(self.text.bytes@, 0, env.map(), *c);
                match r {
                    Ok(s) => out == Some(encode_utf8(s@)),
                    Err(e) => (e == Error::UnboundCapture && out is None) || (e == Error::Encoding
                        && out is Some && !valid_utf8(out->Some_0)),
                }
            }),
    {
        let tpl = &self.text.bytes;
        let n = tpl.len();
        let mut out: Vec<u8> = Vec::new();
        let mut k: usize = 0;
        while k < n
            invariant
                self.wf(),
                c.wf(),
                env.wf_for(c.nodes@.len() as int),
                tpl == &self.text.bytes,
                n == tpl@.len(),
                k <= n,
                render_from(tpl@, 0, env.map(), *c) == (match render_from(
                    tpl@,
                    k as int,
                    env.map(),
                    *c,
                ) {
                    Some(rest) => Some(out@ + rest),
                    None => None::<Seq<u8>>,
                }),
            decreases n - k,
        {
            let b = tpl[k];
            if b == 36 {
                let mut e = k + 1;
                let mut stop = false;
                while !stop && e < n
                    invariant
                        n == tpl@.len(),
                        k + 1 <= e <= n,
                        run_end(tpl@, k + 1) == run_end(tpl@, e as int),
                        stop ==> (e as int) < n && !is_meta_char(tpl@[e as int]),
                    decreases n - e + (if stop {
                        0int
                    } else {
                        1int
                    }),
                {
                    let b2 = tpl[e];
                    if (65 <= b2 && b2 <= 90) || b2 == 95 {
                        e += 1;
                    } else {
                        stop = true;
                    }
                }
                proof {
                    assert(run_end(tpl@, k + 1) == e as int);
                }
                if e > k + 1 {
                    match env.lookup_range(tpl, k + 1, e) {
                        Some(id) => {
                            proof {
                                assert((id as int) < c.nodes@.len());
                                assert(c.node_ok(id as int));
                            }
                            let ghost out_pre = out@;
                            append_range(
                                &mut out,
                                &c.src.bytes,
                                c.nodes[id].start,
                                c.nodes[id].end,
                            );
                            proof {
                                let nb = c.node_bytes(id as int);
                                assert(out@ == out_pre + nb);
                                let rest_opt = render_from(tpl@, e as int, env.map(), *c);
                                if rest_opt is Some {
                                    let rest = rest_opt->Some_0;
                                    assert(render_from(tpl@, k as int, env.map(), *c) == Some(
                                        nb + rest,
                                    ));
                                    assert(out_pre + (nb + rest) =~= out@ + rest);
                                } else {
                                    assert(render_from(tpl@, k as int, env.map(), *c) is None);
                                }
                            }
                            k = e;
                        },
                        None => {
                            return Err(Error::UnboundCapture);
                        },
                    }
                } else {
                    out.push(b);
                    proof {
                        lemma_step_literal(tpl@, k as int, env.map(), *c, out@);
                    }
                    k += 1;
                }
            } else {
                out.push(b);
                proof {
                    lemma_step_literal(tpl@, k as int, env.map(), *c, out@);
                }
                k += 1;
            }
        }
        match string_from_utf8(out) {
            Some(s) => Ok(s),
            None => Err(Error::Encoding),
        }
    }
}

/// One textual rewrite: delete `deleted_length` bytes at byte offset
/// `position` and insert `inserted_text` there. An edit is data, not a
/// side effect; applying it is a separate, explicit step.
pub struct Edit {
    pub position: usize,
    pub deleted_length: usize,
    pub inserted_text: String,
}

/// The bytes an edit inserts.
pub open spec fn edit_bytes(e: Edit) -> Seq<u8> {
    encode_utf8(e.inserted_text@)
}

/// One byte-range splice: the range `[pos, pos + del)` replaced by `ins`.
pub open spec fn splice(bytes: Seq<u8>, pos: int, del: int, ins: Seq<u8>) -> Seq<u8> {
    bytes.subrange(0, pos) + ins + bytes.subrange(pos + del, bytes.len() as int)
}

/// The edit composition law: one splice leaves the bytes before the
/// position untouched, places the inserted bytes exactly at the
/// position, drops the deleted range entirely, and shifts the bytes
/// behind it by the length difference — for any combination of deleted
/// and inserted lengths, growing, shrinking or equal.
pub proof fn lemma_edit_composition(bytes: Seq<u8>, pos: int, del: int, ins: Seq<u8>)
    requires
        0 <= pos,
        0 <= del,
        pos + del <= bytes.len(),
    ensures
        splice(bytes, pos, del, ins).len() == bytes.len() - del + ins.len(),
        splice(bytes, pos, del, ins).subrange(0, pos) == bytes.subrange(0, pos),
        splice(bytes, pos, del, ins).subrange(pos, pos + ins.len() as int) == ins,
        splice(bytes, pos, del, ins).subrange(
            pos + ins.len() as int,
            splice(bytes, pos, del, ins).len() as int,
        ) == bytes.subrange(pos + del, bytes.len() as int),
{
    let out = splice(bytes, pos, del, ins);
    assert(out.subrange(0, pos) =~= bytes.subrange(0, pos));
    assert(out.subrange(pos, pos + ins.len() as int) =~= ins);
    assert(out.subrange(pos + ins.len() as int, out.len() as int) =~= bytes.subrange(
        pos + del,
        bytes.len() as int,
    ));
}

/// A conflict-free batch: every edit lies within the text, and each edit
/// begins no earlier than its predecessor ended.
pub open spec fn batch_ok(bytes: Seq<u8>, es: Seq<Edit>) -> bool {
    &&& forall|i: int|
        0 <= i < es.len() ==> (#[trigger] es[i]).position + es[i].deleted_length <= bytes.len()
    &&& forall|i: int|
        0 < i < es.len() ==> es[i - 1].position + es[i - 1].deleted_length
            <= (#[trigger] es[i]).position
}

/// Ascending-order application, written over the original text: the
/// segments of `bytes` between the edits, interleaved with the inserted
/// texts, from edit `k` on, starting at offset `from`.
pub open spec fn splice_all_from(bytes: Seq<u8>, es: Seq<Edit>, k: int, from: int) -> Seq<u8>
    decreases es.len() - k,
{
    if !(0 <= k < es.len()) {
        bytes.subrange(from, bytes.len() as int)
    } else {
        bytes.subrange(from, es[k].position as int) + edit_bytes(es[k]) + splice_all_from(
            bytes,
            es,
            k + 1,
            es[k].position + es[k].deleted_length,
        )
    }
}

/// Ascending-order application of a whole batch.
pub open spec fn splice_all(bytes: Seq<u8>, es: Seq<Edit>) -> Seq<u8> {
    splice_all_from(bytes, es, 0, 0)
}

/// Descending-order application: the last edit is spliced first, so the
/// earlier offsets stay valid.
pub open spec fn apply_in_descending(bytes: Seq<u8>, es: Seq<Edit>) -> Seq<u8>
    decreases es.len(),
{
    if es.len() == 0 {
        bytes
    } else {
        apply_in_descending(
            splice(
                bytes,
                es.last().position as int,
                es.last().deleted_length as int,
                edit_bytes(es.last()),
            ),
            es.drop_last(),
        )
    }
}

#[verifier::rlimit(80)]
proof fn lemma_splice_all_push(bytes: Seq<u8>, es: Seq<Edit>, last: Edit, k: int, from: int)
    requires
        batch_ok(bytes, es.push(last)),
        0 <= k <= es.len(),
        0 <= from <= bytes.len(),
        from <= last.position,
        k < es.len() ==> from <= es[k].position,
    ensures
        splice_all_from(
            splice(bytes, last.position as int, last.deleted_length as int, edit_bytes(last)),
            es,
            k,
            from,
        ) == splice_all_from(bytes, es.push(last), k, from),
    decreases es.len() - k,
{
    let p = last.position as int;
    let d = last.deleted_length as int;
    let ins = edit_bytes(last);
    let bytes2 = splice(bytes, p, d, ins);
    assert(es.push(last)[es.len() as int] == last);
    assert(last.position + last.deleted_length <= bytes.len());
    if k == es.len() {
        assert(splice_all_from(bytes, es.push(last), k + 1, p + d) == bytes.subrange(
            p + d,
            bytes.len() as int,
        ));
        assert(bytes2.subrange(from, bytes2.len() as int) =~= bytes.subrange(from, p) + ins
            + bytes.subrange(p + d, bytes.len() as int));
    } else {
        assert(es.push(last)[k] == es[k]);
        let ek = es[k];
        assert(ek.position + ek.deleted_length <= last.position) by {
            assert forall|m: int|
                k <= m < es.len() implies (#[trigger] es[m]).position + es[m].deleted_length
                <= last.position by {
                lemma_chain_to_last(bytes, es, last, m);
            }
        }
        assert(bytes2.subrange(from, ek.position as int) =~= bytes.subrange(
            from,
            ek.position as int,
        ));
        if k + 1 < es.len() {
            assert(es.push(last)[k] == es[k]);
            assert(es.push(last)[k + 1] == es[k + 1]);
        }
        lemma_splice_all_push(bytes, es, last, k + 1, ek.position + ek.deleted_length);
    }
}

/// Every edit before the appended last one ends at or before it begins.
proof fn lemma_chain_to_last(bytes: Seq<u8>, es: Seq<Edit>, last: Edit, m: int)
    requires
        batch_ok(bytes, es.push(last)),
        0 <= m < es.len(),
    ensures
        es[m].position + es[m].deleted_length <= last.position,
    decreases es.len() - m,
{
    assert(es.push(last)[m] == es[m]);
    if m == es.len() - 1 {
        assert(es.push(last)[es.len() as int] == last);
    } else {
        assert(es.push(last)[m + 1] == es[m + 1]);
        lemma_chain_to_last(bytes, es, last, m + 1);
        assert(es[m].position + es[m].deleted_length <= es[m + 1].position);
    }
}

/// Applying a conflict-free batch in descending position order, one
/// splice at a time, yields exactly the ascending-order composition of
/// segments over the original text: the two algorithms agree.
#[verifier::rlimit(80)]
pub proof fn lemma_batch_order_irrelevant(bytes: Seq<u8>, es: Seq<Edit>)
    requires
        batch_ok(bytes, es),
    ensures
        apply_in_descending(bytes, es) == splice_all(bytes, es),
    decreases es.len(),
{
    if es.len() == 0 {
        assert(splice_all_from(bytes, es, 0, 0) =~= bytes);
    } else {
        let last = es.last();
        let rest = es.drop_last();
        assert(es =~= rest.push(last));
        let p = last.position as int;
        let d = last.deleted_length as int;
        let bytes2 = splice(bytes, p, d, edit_bytes(last));
        assert(last.position + last.deleted_length <= bytes.len());
        assert(bytes2.len() == p + edit_bytes(last).len() + (bytes.len() - p - d));
        assert(batch_ok(bytes2, rest)) by {
            assert forall|i: int|
                0 <= i < rest.len() implies (#[trigger] rest[i]).position + rest[i].deleted_length
                <= bytes2.len() by {
                assert(rest[i] == es[i]);
                lemma_chain_to_last(bytes, rest, last, i);
            }
            assert forall|i: int|
                0 < i < rest.len() implies rest[i - 1].position + rest[i - 1].deleted_length <= (
            #[trigger] rest[i]).position by {
                assert(rest[i] == es[i] && rest[i - 1] == es[i - 1]);
            }
        }
        lemma_batch_order_irrelevant(bytes2, rest);
        if rest.len() > 0 {
            assert(rest[0] == es[0]);
            lemma_chain_to_last(bytes, rest, last, 0);
        }
        lemma_splice_all_push(bytes, rest, last, 0, 0);
    }
}

/// Applies one edit to a source text, producing a new text; the one it
/// read from is never touched. The spliced range must lie within the
/// text, and its ends must fall on character boundaries.
pub fn apply_edit(src: &SourceText, e: &Edit) -> (r: Result<SourceText, Error>)
    requires
        src.wf(),
    ensures
        ({
            let ok_range = e.position + e.deleted_length <= src.bytes@.len();
            let ok_bounds = is_char_boundary(src.bytes@, e.position as int) && is_char_boundary(
                src.bytes@,
                e.position + e.deleted_length,
            );
            match r {
                Ok(t) => ok_range && ok_bounds && t.wf() && t.bytes@ == splice(
                    src.bytes@,
                    e.position as int,
                    e.deleted_length as int,
                    edit_bytes(*e),
                ),
                Err(err) => (err == Error::EditConflict && !ok_range) || (err == Error::Encoding
                    && ok_range && !ok_bounds),
            }
        }),
{
    let n = src.bytes.len();
    if e.deleted_length > n || e.position > n - e.deleted_length {
        return Err(Error::EditConflict);
    }
    let endpos = e.position + e.deleted_length;
    if !crate::source::boundary_at(src, e.position) || !crate::source::boundary_at(src, endpos) {
        return Err(Error::Encoding);
    }
    proof {
        broadcast use vstd::utf8::encode_utf8_valid_utf8;
        broadcast use vstd::utf8::is_char_boundary_iff_not_is_continuation_byte;
        broadcast use vstd::utf8::is_char_boundary_start_end_of_seq;
        broadcast use vstd::utf8::valid_utf8_split;

    }
    let s = src.text.as_str();
    let (a, rest) = s.split_at(e.position);
    proof {
        assert(rest.spec_bytes() =~= src.bytes@.subrange(
            e.position as int,
            src.bytes@.len() as int,
        ));
        if e.deleted_length == 0 {
        } else if endpos as int == src.bytes@.len() {
            assert(is_char_boundary(rest.spec_bytes(), rest.spec_bytes().len() as int));
        } else {
            assert(rest.spec_bytes()[e.deleted_length as int] == src.bytes@[endpos as int]);
            assert(!vstd::utf8::is_continuation_byte(src.bytes@[endpos as int]));
            assert(is_char_boundary(rest.spec_bytes(), e.deleted_length as int));
        }
    }
    let (_, b) = rest.split_at(e.deleted_length);
    let mut out = a.to_owned();
    out.append(e.inserted_text.as_str());
    out.append(b);
    proof {
        lemma_encode_utf8_concat(a@, e.inserted_text@);
        lemma_encode_utf8_concat(a@ + e.inserted_text@, b@);
        assert((a@ + e.inserted_text@) + b@ =~= out@);
        assert(a.spec_bytes() =~= src.bytes@.subrange(0, e.position as int));
        assert(b.spec_bytes() =~= src.bytes@.subrange(endpos as int, src.bytes@.len() as int));
        assert(encode_utf8(out@) =~= splice(
            src.bytes@,
            e.position as int,
            e.deleted_length as int,
            edit_bytes(*e),
        ));
    }
    Ok(SourceText::from_string(out))
}

/// Applies a batch of edits to one source text, in ascending position
/// order over the original text. A batch that is not sorted and
/// non-overlapping is refused whole, before any text is produced; so is
/// one whose splice ends miss character boundaries. The result equals
/// the descending-order, one-splice-at-a-time application of the same
/// batch.
#[verifier::rlimit(100)]
pub fn apply_edits(src: &SourceText, edits: &Vec<Edit>) -> (r: Result<SourceText, Error>)
    requires
        src.wf(),
    ensures
        ({
            let ok_sorted = batch_ok(src.bytes@, edits@);
            let ok_bounds = forall|i: int|
                0 <= i < edits@.len() ==> is_char_boundary(
                    src.bytes@,
                    (#[trigger] edits@[i]).position as int,
                ) && is_char_boundary(src.bytes@, edits@[i].position + edits@[i].deleted_length);
            match r {
                Ok(t) => ok_sorted && ok_bounds && t.wf() && t.bytes@ == splice_all(
                    src.bytes@,
                    edits@,
                ) && t.bytes@ == apply_in_descending(src.bytes@, edits@),
                Err(err) => (err == Error::EditConflict && !ok_sorted) || (err == Error::Encoding
                    && ok_sorted && !ok_bounds),
            }
        }),
{
    let n = src.bytes.len();
    let count = edits.len();
    let mut i: usize = 0;
    while i < count
        invariant
            src.wf(),
            n == src.bytes@.len(),
            count == edits@.len(),
            i <= count,
            forall|m: int|
                0 <= m < i ==> (#[trigger] edits@[m]).position + edits@[m].deleted_length <= n,
            forall|m: int|
                0 < m < i ==> edits@[m - 1].position + edits@[m - 1].deleted_length
                    <= (#[trigger] edits@[m]).position,
        decreases count - i,
    {
        if edits[i].deleted_length > n || edits[i].position > n - edits[i].deleted_length {
            return Err(Error::EditConflict);
        }
        if i > 0 && edits[i].position < edits[i - 1].position + edits[i - 1].deleted_length {
            return Err(Error::EditConflict);
        }
        i += 1;
    }
    let mut i: usize = 0;
    while i < count
        invariant
            src.wf(),
            n == src.bytes@.len(),
            count == edits@.len(),
            i <= count,
            batch_ok(src.bytes@, edits@),
            forall|m: int|
                0 <= m < i ==> is_char_boundary(src.bytes@, (#[trigger] edits@[m]).position as int)
                    && is_char_boundary(
                    src.bytes@,
                    edits@[m].position + edits@[m].deleted_length,
                ),
        decreases count - i,
    {
        let endpos = edits[i].position + edits[i].deleted_length;
        if !crate::source::boundary_at(src, edits[i].position) || !crate::source::boundary_at(
            src,
            endpos,
        ) {
            return Err(Error::Encoding);
        }
        i += 1;
    }
    let mut out = String::new();
    let mut cursor: usize = 0;
    let mut k: usize = 0;
    proof {
        broadcast use vstd::utf8::encode_utf8_valid_utf8;

        vstd::utf8::is_char_boundary_start_end_of_seq(src.bytes@);
        assert(encode_utf8(out@) =~= Seq::<u8>::empty());
        assert(encode_utf8(out@) + splice_all_from(src.bytes@, edits@, 0, 0) =~= splice_all(
            src.bytes@,
            edits@,
        ));
    }
    while k < count
        invariant
            src.wf(),
            n == src.bytes@.len(),
            count == edits@.len(),
            k <= count,
            batch_ok(src.bytes@, edits@),
            forall|m: int|
                0 <= m < count ==> is_char_boundary(
                    src.bytes@,
                    (#[trigger] edits@[m]).position as int,
                ) && is_char_boundary(
                    src.bytes@,
                    edits@[m].position + edits@[m].deleted_length,
                ),
            cursor <= n,
            k < count ==> cursor <= edits@[k as int].position,
            k > 0 ==> cursor == edits@[k - 1].position + edits@[k - 1].deleted_length,
            k == 0 ==> cursor == 0,
            is_char_boundary(src.bytes@, cursor as int),
            splice_all(src.bytes@, edits@) == encode_utf8(out@) + splice_all_from(
                src.bytes@,
                edits@,
                k as int,
                cursor as int,
            ),
        decreases count - k,
    {
        let p = edits[k].position;
        let s = src.text.as_str();
        let (_, rest) = s.split_at(cursor);
        proof {
            broadcast use vstd::utf8::encode_utf8_valid_utf8;
            broadcast use vstd::utf8::is_char_boundary_iff_not_is_continuation_byte;
            broadcast use vstd::utf8::is_char_boundary_start_end_of_seq;
            broadcast use vstd::utf8::valid_utf8_split;

            assert(rest.spec_bytes() =~= src.bytes@.subrange(cursor as int, n as int));
            assert(vstd::utf8::valid_utf8(src.bytes@));
            vstd::utf8::valid_utf8_split(src.bytes@, cursor as int);
            assert(vstd::utf8::valid_utf8(rest.spec_bytes()));
            if p == cursor {
                vstd::utf8::is_char_boundary_start_end_of_seq(rest.spec_bytes());
            } else if p == n {
                vstd::utf8::is_char_boundary_start_end_of_seq(rest.spec_bytes());
                assert(is_char_boundary(rest.spec_bytes(), rest.spec_bytes().len() as int));
            } else {
                assert(rest.spec_bytes()[p - cursor] == src.bytes@[p as int]);
                vstd::utf8::is_char_boundary_iff_not_is_continuation_byte(src.bytes@, p as int);
                vstd::utf8::is_char_boundary_iff_not_is_continuation_byte(
                    rest.spec_bytes(),
                    p - cursor,
                );
                assert(is_char_boundary(rest.spec_bytes(), p - cursor));
            }
        }
        let (seg, _) = rest.split_at(p - cursor);
        let ghost out_pre = out@;
        out.append(seg);
        out.append(edits[k].inserted_text.as_str());
        proof {
            lemma_encode_utf8_concat(out_pre, seg@);
            lemma_encode_utf8_concat(out_pre + seg@, edits@[k as int].inserted_text@);
            assert((out_pre + seg@) + edits@[k as int].inserted_text@ =~= out@);
            assert(seg.spec_bytes() =~= src.bytes@.subrange(cursor as int, p as int));
            assert(encode_utf8(out@) =~= encode_utf8(out_pre) + src.bytes@.subrange(
                cursor as int,
                p as int,
            ) + edit_bytes(edits@[k as int]));
            assert(splice_all(src.bytes@, edits@) == encode_utf8(out@) + splice_all_from(
                src.bytes@,
                edits@,
                k + 1,
                edits@[k as int].position + edits@[k as int].deleted_length,
            ));
        }
        cursor = p + edits[k].deleted_length;
        k += 1;
    }
    let s = src.text.as_str();
    let (_, tail) = s.split_at(cursor);
    let ghost out_pre = out@;
    out.append(tail);
    proof {
        broadcast use vstd::utf8::encode_utf8_valid_utf8;
        broadcast use vstd::utf8::valid_utf8_split;

        lemma_encode_utf8_concat(out_pre, tail@);
        assert(tail.spec_bytes() =~= src.bytes@.subrange(cursor as int, n as int));
        assert(splice_all_from(src.bytes@, edits@, count as int, cursor as int) == src.bytes@
            .subrange(cursor as int, n as int));
        assert(encode_utf8(out@) =~= splice_all(src.bytes@, edits@));
        lemma_batch_order_irrelevant(src.bytes@, edits@);
    }
    Ok(SourceText::from_string(out))
}

/// What a replacement call returns, stated exactly: no match gives no
/// edit; the first preorder match gives an edit over that node's span
/// whose inserted text is the rendered template under the match's own
/// captures; a template failure surfaces as the renderer's failure.
pub open spec fn replace_outcome(
    pat: Pattern,
    root: Root,
    id: int,
    replacer: Replacer,
    r: Result<Option<Edit>, Error>,
) -> bool {
    let found = crate::matcher::found_in(pat, root, id);
    match r {
        Ok(opt) => match opt {
            None => found.len() == 0,
            Some(ed) => found.len() > 0 && {
                let m = found[0];
                let env = crate::matcher::match_at(
                    pat.root,
                    pat.start as int,
                    root,
                    m,
                    Map::empty(),
                )->Some_0;
                &&& ed.position == root.nodes@[m].start
                &&& ed.position + ed.deleted_length == root.nodes@[m].end
                &&& render_from(replacer.text.bytes@, 0, env, root) == Some(
                    encode_utf8(ed.inserted_text@),
                )
            },
        },
        Err(e) => found.len() > 0 && {
            let m = found[0];
            let env = crate::matcher::match_at(
                pat.root,
                pat.start as int,
                root,
                m,
                Map::empty(),
            )->Some_0;
            let out = render_from(replacer.text.bytes@, 0, env, root);
            (e == Error::UnboundCapture && out is None) || (e == Error::Encoding && out is Some
                && !valid_utf8(out->Some_0))
        },
    }
}

impl<'r> crate::tree::Node<'r> {
    /// Finds the first match of an already-compiled pattern under this
    /// node and renders the template under its captures into an edit
    /// over the matched span. No match is no error.
    pub fn replace_with(&self, pat: &Pattern, replacer: &Replacer) -> (r: Result<
        Option<Edit>,
        Error,
    >)
        requires
            self.wf(),
            pat.wf(),
            replacer.wf(),
        ensures
            replace_outcome(*pat, *self.root, self.id as int, *replacer, r),
    {
        match crate::matcher::find_from(pat, self.root, self.id) {
            None => Ok(None),
            Some((id, env)) => {
                proof {
                    assert(self.root.node_ok(id as int));
                }
                match replacer.generate_replacement(&env, self.root) {
                    Ok(s) => {
                        let start = self.root.nodes[id].start;
                        let end = self.root.nodes[id].end;
                        Ok(
                            Some(
                                Edit {
                                    position: start,
                                    deleted_length: end - start,
                                    inserted_text: s,
                                },
                            ),
                        )
                    },
                    Err(e) => Err(e),
                }
            },
        }
    }

    /// Compiles the query string, finds its first match under this node,
    /// and renders the template into an edit. A query that does not
    /// parse is refused with a syntax failure.
    pub fn replace(&self, pattern_str: &str, replacer: &Replacer) -> (r: Result<
        Option<Edit>,
        Error,
    >)
        requires
            self.wf(),
            replacer.wf(),
        ensures
            r == Err::<Option<Edit>, Error>(Error::PatternSyntax) || exists|pat: Pattern|
                (#[trigger] pat.wf()) && pat.root.src.text@ == pattern_str@ && replace_outcome(
                    pat,
                    *self.root,
                    self.id as int,
                    *replacer,
                    r,
                ),
    {
        let pat = match Pattern::new(pattern_str) {
            Ok(p) => p,
            Err(e) => {
                return Err(e);
            },
        };
        let r = self.replace_with(&pat, replacer);
        proof {
            assert(pat.wf() && pat.root.src.text@ == pattern_str@ && replace_outcome(
                pat,
                *self.root,
                self.id as int,
                *replacer,
                r,
            ));
        }
        r
    }
}

/// After copying the literal byte at `k`, the rendered prefix still
/// composes with the remaining template.
proof fn lemma_step_literal(tpl: Seq<u8>, k: int, env: Map<Seq<u8>, int>, c: Root, out_new: Seq<u8>)
    requires
        0 <= k < tpl.len(),
        !(tpl[k] == 36 && run_end(tpl, k + 1) > k + 1),
        out_new.len() >= 1,
        out_new.last() == tpl[k],
    ensures
        (match render_from(tpl, k, env, c) {
            Some(rest) => Some(out_new.drop_last() + rest),
            None => None::<Seq<u8>>,
        }) == (match render_from(tpl, k + 1, env, c) {
            Some(rest) => Some(out_new + rest),
            None => None::<Seq<u8>>,
        }),
{
    match render_from(tpl, k + 1, env, c) {
        Some(rest) => {
            assert(render_from(tpl, k, env, c) == Some(seq![tpl[k]] + rest));
            assert(out_new.drop_last() + (seq![tpl[k]] + rest) =~= out_new + rest);
        },
        None => {
        },
    }
}

} // verus!

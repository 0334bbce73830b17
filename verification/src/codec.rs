//! The wire codec: one envelope to and from one line of text in the target
//! JSON format.
//!
//! The wire shape is a flat record: `{"src":...,"dest":...,"body":{...}}`,
//! where the body places the `type` discriminant beside `in_reply_to`,
//! `msg_id` and the variant's own fields.  The encoder writes the canonical
//! rendering of that record: fixed key order, no whitespace, absent optional
//! fields left out entirely.  `parse_canonical` reads exactly that rendering
//! back, which gives the round-trip law; the transport's input edge, which
//! must take any equivalent JSON rendering of the record, stands outside the
//! verified core and hands it plain `Message` values.

use vstd::prelude::*;
use vstd::slice::*;
use vstd::string::*;

use crate::protocol::{Body, Error, Message, Payload};

verus! {

/// The mathematical shape of a payload: plain character sequences.
#[verifier::ext_equal]
pub enum PayloadV {
    Echo { echo: Seq<char> },
    EchoOk { echo: Seq<char> },
    Init { node_id: Seq<char>, node_ids: Seq<Seq<char>> },
    InitOk,
}

/// The mathematical shape of a body.
#[verifier::ext_equal]
pub struct BodyV {
    pub msg_id: Option<usize>,
    pub in_reply_to: Option<usize>,
    pub payload: PayloadV,
}

/// The mathematical shape of an envelope.
#[verifier::ext_equal]
pub struct MsgV {
    pub src: Seq<char>,
    pub dst: Seq<char>,
    pub body: BodyV,
}

pub open spec fn views_of(v: Seq<String>) -> Seq<Seq<char>> {
    v.map_values(|s: String| s@)
}

impl View for Payload {
    type V = PayloadV;

    open spec fn view(&self) -> PayloadV {
        match self {
            Payload::Echo { echo } => PayloadV::Echo { echo: echo@ },
            Payload::EchoOk { echo } => PayloadV::EchoOk { echo: echo@ },
            Payload::Init { node_id, node_ids } => PayloadV::Init {
                node_id: node_id@,
                node_ids: views_of(node_ids@),
            },
            Payload::InitOk => PayloadV::InitOk,
        }
    }
}

impl View for Body {
    type V = BodyV;

    open spec fn view(&self) -> BodyV {
        BodyV { msg_id: self.msg_id, in_reply_to: self.in_reply_to, payload: self.payload@ }
    }
}

impl View for Message {
    type V = MsgV;

    open spec fn view(&self) -> MsgV {
        MsgV { src: self.src@, dst: self.dst@, body: self.body@ }
    }
}

// ---------------------------------------------------------------------------
// The encoding, as a function of the envelope's mathematical shape.
// ---------------------------------------------------------------------------

/// How one character is written inside a quoted wire string: a quote or a
/// backslash gets a backslash before it, everything else stands as it is.
pub open spec fn esc_char(c: char) -> Seq<char> {
    if c == '"' || c == '\\' {
        seq!['\\', c]
    } else {
        seq![c]
    }
}

pub open spec fn esc(s: Seq<char>) -> Seq<char>
    decreases s.len(),
{
    if s.len() == 0 {
        Seq::empty()
    } else {
        esc(s.drop_last()) + esc_char(s.last())
    }
}

/// A quoted wire string.
pub open spec fn enc_str(s: Seq<char>) -> Seq<char> {
    seq!['"'] + esc(s) + seq!['"']
}

pub open spec fn dig(d: nat) -> char {
    if d == 0 {
        '0'
    } else if d == 1 {
        '1'
    } else if d == 2 {
        '2'
    } else if d == 3 {
        '3'
    } else if d == 4 {
        '4'
    } else if d == 5 {
        '5'
    } else if d == 6 {
        '6'
    } else if d == 7 {
        '7'
    } else if d == 8 {
        '8'
    } else {
        '9'
    }
}

/// An unsigned number in decimal, most significant digit first, no leading
/// zeros.
pub open spec fn enc_num(n: nat) -> Seq<char>
    decreases n,
{
    if n < 10 {
        seq![dig(n)]
    } else {
        enc_num(n / 10) + seq![dig(n % 10)]
    }
}

pub open spec fn enc_in_reply_to(o: Option<usize>) -> Seq<char> {
    match o {
        Some(n) => ",\"in_reply_to\":"@ + enc_num(n as nat),
        None => Seq::empty(),
    }
}

pub open spec fn enc_msg_id(o: Option<usize>) -> Seq<char> {
    match o {
        Some(n) => ",\"msg_id\":"@ + enc_num(n as nat),
        None => Seq::empty(),
    }
}

/// The value of the `type` key for each payload variant.
pub open spec fn enc_type(p: PayloadV) -> Seq<char> {
    match p {
        PayloadV::Echo { .. } => "echo"@,
        PayloadV::EchoOk { .. } => "echo_ok"@,
        PayloadV::Init { .. } => "init"@,
        PayloadV::InitOk => "init_ok"@,
    }
}

/// The elements of the `node_ids` array, separated by commas.
pub open spec fn enc_ids(ids: Seq<Seq<char>>) -> Seq<char>
    decreases ids.len(),
{
    if ids.len() == 0 {
        Seq::empty()
    } else if ids.len() == 1 {
        enc_str(ids[0])
    } else {
        enc_ids(ids.drop_last()) + seq![','] + enc_str(ids.last())
    }
}

/// The variant-specific fields of the body, after the optional ids.
pub open spec fn enc_fields(p: PayloadV) -> Seq<char> {
    match p {
        PayloadV::Echo { echo } => ",\"echo\":"@ + enc_str(echo),
        PayloadV::EchoOk { echo } => ",\"echo\":"@ + enc_str(echo),
        PayloadV::Init { node_id, node_ids } => ",\"node_id\":"@ + enc_str(node_id)
            + ",\"node_ids\":"@ + seq!['['] + enc_ids(node_ids) + seq![']'],
        PayloadV::InitOk => Seq::empty(),
    }
}

pub open spec fn enc_body(b: BodyV) -> Seq<char> {
    "{\"type\":"@ + enc_str(enc_type(b.payload)) + enc_in_reply_to(b.in_reply_to) + enc_msg_id(
        b.msg_id,
    ) + enc_fields(b.payload) + "}"@
}

/// The whole wire line of an envelope.
pub open spec fn enc_message(m: MsgV) -> Seq<char> {
    "{\"src\":"@ + enc_str(m.src) + ",\"dest\":"@ + enc_str(m.dst) + ",\"body\":"@ + enc_body(
        m.body,
    ) + "}"@
}

// ---------------------------------------------------------------------------
// The executable encoder.
// ---------------------------------------------------------------------------

/// Appends the characters of `s` as they stand.
fn push_lit(out: &mut Vec<char>, s: &str)
    ensures
        final(out)@ == old(out)@ + s@,
{
    let n = s.unicode_len();
    let mut i: usize = 0;
    while i < n
        invariant
            n == s@.len(),
            0 <= i <= n,
            out@ == old(out)@ + s@.take(i as int),
        decreases n - i,
    {
        out.push(s.get_char(i));
        proof {
            assert(s@.take(i + 1 as int) =~= s@.take(i as int).push(s@[i as int]));
        }
        i = i + 1;
    }
    proof {
        assert(s@.take(n as int) =~= s@);
    }
}

/// Appends a quoted, escaped wire string.
fn push_string(out: &mut Vec<char>, s: &str)
    ensures
        final(out)@ == old(out)@ + enc_str(s@),
{
    out.push('"');
    let n = s.unicode_len();
    let mut i: usize = 0;
    while i < n
        invariant
            n == s@.len(),
            0 <= i <= n,
            out@ == old(out)@ + seq!['"'] + esc(s@.take(i as int)),
        decreases n - i,
    {
        let c = s.get_char(i);
        if c == '"' || c == '\\' {
            out.push('\\');
        }
        out.push(c);
        proof {
            let t = s@.take(i + 1 as int);
            assert(t.drop_last() =~= s@.take(i as int));
            assert(t.last() == s@[i as int]);
            assert(esc(t) == esc(s@.take(i as int)) + esc_char(s@[i as int]));
            assert(out@ =~= old(out)@ + seq!['"'] + esc(t));
        }
        i = i + 1;
    }
    out.push('"');
    proof {
        assert(s@.take(n as int) =~= s@);
        assert(out@ =~= old(out)@ + enc_str(s@));
    }
}

fn digit_char(d: usize) -> (c: char)
    requires
        d < 10,
    ensures
        c == dig(d as nat),
{
    if d == 0 {
        '0'
    } else if d == 1 {
        '1'
    } else if d == 2 {
        '2'
    } else if d == 3 {
        '3'
    } else if d == 4 {
        '4'
    } else if d == 5 {
        '5'
    } else if d == 6 {
        '6'
    } else if d == 7 {
        '7'
    } else if d == 8 {
        '8'
    } else {
        '9'
    }
}

/// Appends a number in decimal.
fn push_num(out: &mut Vec<char>, n: usize)
    ensures
        final(out)@ == old(out)@ + enc_num(n as nat),
    decreases n,
{
    if n >= 10 {
        push_num(out, n / 10);
        out.push(digit_char(n % 10));
        proof {
            assert(out@ =~= old(out)@ + enc_num(n as nat));
        }
    } else {
        out.push(digit_char(n));
        proof {
            assert(out@ =~= old(out)@ + enc_num(n as nat));
        }
    }
}

/// Appends the comma-separated elements of the `node_ids` array.
fn push_ids(out: &mut Vec<char>, ids: &Vec<String>)
    ensures
        final(out)@ == old(out)@ + enc_ids(views_of(ids@)),
{
    let n = ids.len();
    let mut i: usize = 0;
    while i < n
        invariant
            n == ids@.len(),
            0 <= i <= n,
            out@ == old(out)@ + enc_ids(views_of(ids@).take(i as int)),
        decreases n - i,
    {
        if i > 0 {
            out.push(',');
        }
        push_string(out, ids[i].as_str());
        proof {
            let all = views_of(ids@);
            let t = all.take(i + 1 as int);
            assert(t.drop_last() =~= all.take(i as int));
            assert(t.last() == ids@[i as int]@);
            if i == 0 {
                assert(t.len() == 1);
                assert(t[0] == ids@[0]@);
                assert(enc_ids(t) == enc_str(ids@[0]@));
            } else {
                assert(enc_ids(t) == enc_ids(all.take(i as int)) + seq![','] + enc_str(
                    ids@[i as int]@,
                ));
            }
            assert(out@ =~= old(out)@ + enc_ids(t));
        }
        i = i + 1;
    }
    proof {
        assert(views_of(ids@).take(n as int) =~= views_of(ids@));
    }
}

/// Appends the body record.
#[verifier::rlimit(100)]
fn push_body(out: &mut Vec<char>, b: &Body)
    ensures
        final(out)@ == old(out)@ + enc_body(b@),
{
    push_lit(out, "{\"type\":");
    match &b.payload {
        Payload::Echo { .. } => push_string(out, "echo"),
        Payload::EchoOk { .. } => push_string(out, "echo_ok"),
        Payload::Init { .. } => push_string(out, "init"),
        Payload::InitOk => push_string(out, "init_ok"),
    }
    let ghost head = old(out)@ + "{\"type\":"@ + enc_str(enc_type(b@.payload));
    proof {
        assert(out@ =~= head);
    }
    if let Some(n) = b.in_reply_to {
        push_lit(out, ",\"in_reply_to\":");
        push_num(out, n);
    }
    let ghost with_irt = head + enc_in_reply_to(b@.in_reply_to);
    proof {
        assert(out@ =~= with_irt);
    }
    if let Some(n) = b.msg_id {
        push_lit(out, ",\"msg_id\":");
        push_num(out, n);
    }
    let ghost with_mid = with_irt + enc_msg_id(b@.msg_id);
    proof {
        assert(out@ =~= with_mid);
    }
    let ghost with_fields = with_mid + enc_fields(b@.payload);
    match &b.payload {
        Payload::Echo { echo } => {
            push_lit(out, ",\"echo\":");
            push_string(out, echo.as_str());
            proof {
                assert(out@ =~= with_fields);
            }
        },
        Payload::EchoOk { echo } => {
            push_lit(out, ",\"echo\":");
            push_string(out, echo.as_str());
            proof {
                assert(out@ =~= with_fields);
            }
        },
        Payload::Init { node_id, node_ids } => {
            push_lit(out, ",\"node_id\":");
            push_string(out, node_id.as_str());
            push_lit(out, ",\"node_ids\":");
            out.push('[');
            push_ids(out, node_ids);
            out.push(']');
            proof {
                assert(out@ =~= with_fields);
            }
        },
        Payload::InitOk => {
            proof {
                assert(out@ =~= with_fields);
            }
        },
    }
    push_lit(out, "}");
    proof {
        assert(out@ =~= with_fields + "}"@);
        assert(out@ =~= old(out)@ + enc_body(b@));
    }
}

/// Encodes an envelope as its wire line.  Encoding never fails.
pub fn encode_message(m: &Message) -> (out: Vec<char>)
    ensures
        out@ == enc_message(m@),
{
    let mut out: Vec<char> = Vec::new();
    push_lit(&mut out, "{\"src\":");
    push_string(&mut out, m.src.as_str());
    push_lit(&mut out, ",\"dest\":");
    push_string(&mut out, m.dst.as_str());
    push_lit(&mut out, ",\"body\":");
    push_body(&mut out, &m.body);
    push_lit(&mut out, "}");
    proof {
        assert(out@ =~= enc_message(m@));
    }
    out
}

// ---------------------------------------------------------------------------
// The parse function, as a function of the wire line.  Each piece consumes a
// prefix of the remaining characters and yields the value it read together
// with what is left.
// ---------------------------------------------------------------------------

/// Expects the exact characters of `l` and consumes them.
pub open spec fn sp_lit(s: Seq<char>, l: Seq<char>) -> Option<Seq<char>> {
    if l.len() <= s.len() && s.take(l.len() as int) == l {
        Some(s.skip(l.len() as int))
    } else {
        None
    }
}

/// Reads the inside of a quoted string up to and including the closing
/// quote, undoing the escapes the encoder writes.
pub open spec fn sp_str_body(s: Seq<char>) -> Option<(Seq<char>, Seq<char>)>
    decreases s.len(),
{
    if s.len() == 0 {
        None
    } else if s[0] == '"' {
        Some((Seq::empty(), s.skip(1)))
    } else if s[0] == '\\' {
        if s.len() >= 2 && (s[1] == '"' || s[1] == '\\') {
            match sp_str_body(s.skip(2)) {
                Some(tr) => Some((seq![s[1]] + tr.0, tr.1)),
                None => None,
            }
        } else {
            None
        }
    } else {
        match sp_str_body(s.skip(1)) {
            Some(tr) => Some((seq![s[0]] + tr.0, tr.1)),
            None => None,
        }
    }
}

/// Reads a quoted string.
pub open spec fn sp_string(s: Seq<char>) -> Option<(Seq<char>, Seq<char>)> {
    if s.len() >= 1 && s[0] == '"' {
        sp_str_body(s.skip(1))
    } else {
        None
    }
}

pub open spec fn is_digit(c: char) -> bool {
    48 <= c as u32 && c as u32 <= 57
}

pub open spec fn dval(c: char) -> nat {
    (c as u32 - 48) as nat
}

/// Reads the longest run of decimal digits.
pub open spec fn sp_digits(s: Seq<char>) -> (Seq<char>, Seq<char>)
    decreases s.len(),
{
    if s.len() == 0 || !is_digit(s[0]) {
        (Seq::empty(), s)
    } else {
        let tr = sp_digits(s.skip(1));
        (seq![s[0]] + tr.0, tr.1)
    }
}

/// The value of a run of decimal digits, most significant first.
pub open spec fn digits_val(d: Seq<char>) -> nat
    decreases d.len(),
{
    if d.len() == 0 {
        0
    } else {
        digits_val(d.drop_last()) * 10 + dval(d.last())
    }
}

/// Reads a number that fits the id type.
pub open spec fn sp_num(s: Seq<char>) -> Option<(usize, Seq<char>)> {
    let tr = sp_digits(s);
    if tr.0.len() == 0 {
        None
    } else if digits_val(tr.0) <= usize::MAX as nat {
        Some((digits_val(tr.0) as usize, tr.1))
    } else {
        None
    }
}

/// Reads an optional numeric field introduced by the exact key text `l`;
/// when the key is not there, the field is absent.
pub open spec fn sp_opt_num(s: Seq<char>, l: Seq<char>) -> Option<(Option<usize>, Seq<char>)> {
    match sp_lit(s, l) {
        Some(r) => match sp_num(r) {
            Some(nr) => Some((Some(nr.0), nr.1)),
            None => None,
        },
        None => Some((None, s)),
    }
}

/// After the first element of a non-empty array: either the closing bracket
/// or a comma and one more string.
pub open spec fn sp_ids_tail(s: Seq<char>) -> Option<(Seq<Seq<char>>, Seq<char>)>
    decreases s.len(),
{
    if s.len() == 0 {
        None
    } else if s[0] == ']' {
        Some((Seq::empty(), s.skip(1)))
    } else if s[0] == ',' {
        match sp_string(s.skip(1)) {
            Some(tr) => if tr.1.len() < s.len() {
                match sp_ids_tail(tr.1) {
                    Some(ir) => Some((seq![tr.0] + ir.0, ir.1)),
                    None => None,
                }
            } else {
                None
            },
            None => None,
        }
    } else {
        None
    }
}

/// Reads the bracketed array of identity strings.
pub open spec fn sp_ids(s: Seq<char>) -> Option<(Seq<Seq<char>>, Seq<char>)> {
    if s.len() == 0 || s[0] != '[' {
        None
    } else if s.len() >= 2 && s[1] == ']' {
        Some((Seq::empty(), s.skip(2)))
    } else {
        match sp_string(s.skip(1)) {
            Some(tr) => if tr.1.len() < s.len() {
                match sp_ids_tail(tr.1) {
                    Some(ir) => Some((seq![tr.0] + ir.0, ir.1)),
                    None => None,
                }
            } else {
                None
            },
            None => None,
        }
    }
}

/// Reads the variant-specific fields that follow the optional ids, as
/// selected by the `type` value; an unknown discriminant does not parse.
pub open spec fn sp_payload(ty: Seq<char>, s: Seq<char>) -> Option<(PayloadV, Seq<char>)> {
    if ty == "echo"@ {
        match sp_lit(s, ",\"echo\":"@) {
            Some(r) => match sp_string(r) {
                Some(tr) => Some((PayloadV::Echo { echo: tr.0 }, tr.1)),
                None => None,
            },
            None => None,
        }
    } else if ty == "echo_ok"@ {
        match sp_lit(s, ",\"echo\":"@) {
            Some(r) => match sp_string(r) {
                Some(tr) => Some((PayloadV::EchoOk { echo: tr.0 }, tr.1)),
                None => None,
            },
            None => None,
        }
    } else if ty == "init"@ {
        match sp_lit(s, ",\"node_id\":"@) {
            Some(r) => match sp_string(r) {
                Some(tr) => match sp_lit(tr.1, ",\"node_ids\":"@) {
                    Some(r2) => match sp_ids(r2) {
                        Some(ir) => Some(
                            (PayloadV::Init { node_id: tr.0, node_ids: ir.0 }, ir.1),
                        ),
                        None => None,
                    },
                    None => None,
                },
                None => None,
            },
            None => None,
        }
    } else if ty == "init_ok"@ {
        Some((PayloadV::InitOk, s))
    } else {
        None
    }
}

/// Reads a body record.
pub open spec fn sp_body(s: Seq<char>) -> Option<(BodyV, Seq<char>)> {
    match sp_lit(s, "{\"type\":"@) {
        Some(r1) => match sp_string(r1) {
            Some(tyr) => match sp_opt_num(tyr.1, ",\"in_reply_to\":"@) {
                Some(ir) => match sp_opt_num(ir.1, ",\"msg_id\":"@) {
                    Some(mr) => match sp_payload(tyr.0, mr.1) {
                        Some(pr) => match sp_lit(pr.1, "}"@) {
                            Some(r2) => Some(
                                (
                                    BodyV {
                                        msg_id: mr.0,
                                        in_reply_to: ir.0,
                                        payload: pr.0,
                                    },
                                    r2,
                                ),
                            ),
                            None => None,
                        },
                        None => None,
                    },
                    None => None,
                },
                None => None,
            },
            None => None,
        },
        None => None,
    }
}

/// Reads one whole wire line as an envelope; nothing may follow it.
pub open spec fn sp_message(s: Seq<char>) -> Option<MsgV> {
    match sp_lit(s, "{\"src\":"@) {
        Some(r1) => match sp_string(r1) {
            Some(sr) => match sp_lit(sr.1, ",\"dest\":"@) {
                Some(r2) => match sp_string(r2) {
                    Some(dr) => match sp_lit(dr.1, ",\"body\":"@) {
                        Some(r3) => match sp_body(r3) {
                            Some(br) => match sp_lit(br.1, "}"@) {
                                Some(r4) => if r4.len() == 0 {
                                    Some(MsgV { src: sr.0, dst: dr.0, body: br.0 })
                                } else {
                                    None
                                },
                                None => None,
                            },
                            None => None,
                        },
                        None => None,
                    },
                    None => None,
                },
                None => None,
            },
            None => None,
        },
        None => None,
    }
}

// ---------------------------------------------------------------------------
// The round trip: parsing what the encoder wrote gives the value back.
// ---------------------------------------------------------------------------

proof fn lemma_sp_lit_prefix(l: Seq<char>, rest: Seq<char>)
    ensures
        sp_lit(l + rest, l) == Some(rest),
{
    assert((l + rest).take(l.len() as int) =~= l);
    assert((l + rest).skip(l.len() as int) =~= rest);
}

proof fn lemma_sp_lit_mismatch(s: Seq<char>, l: Seq<char>, i: int)
    requires
        0 <= i < l.len(),
        i < s.len(),
        s[i] != l[i],
    ensures
        sp_lit(s, l) is None,
{
    if l.len() <= s.len() && s.take(l.len() as int) == l {
        assert(s.take(l.len() as int)[i] == s[i]);
    }
}

proof fn lemma_esc_cons(t: Seq<char>)
    requires
        t.len() > 0,
    ensures
        esc(t) == esc_char(t[0]) + esc(t.skip(1)),
    decreases t.len(),
{
    if t.len() == 1 {
        assert(t.drop_last() =~= Seq::<char>::empty());
        assert(t.skip(1) =~= Seq::<char>::empty());
        assert(esc(t) =~= esc_char(t[0]) + esc(t.skip(1)));
    } else {
        let u = t.drop_last();
        lemma_esc_cons(u);
        assert(t.skip(1).drop_last() =~= u.skip(1));
        assert(t.skip(1).last() == t.last());
        assert(esc(t.skip(1)) == esc(u.skip(1)) + esc_char(t.last()));
        assert(esc(t) == (esc_char(u[0]) + esc(u.skip(1))) + esc_char(t.last()));
        assert(esc(t) =~= esc_char(t[0]) + esc(t.skip(1)));
    }
}

proof fn lemma_sp_str_body_enc(t: Seq<char>, rest: Seq<char>)
    ensures
        sp_str_body(esc(t) + seq!['"'] + rest) == Some((t, rest)),
    decreases t.len(),
{
    let s = esc(t) + seq!['"'] + rest;
    if t.len() == 0 {
        assert(s =~= seq!['"'] + rest);
        assert(s[0] == '"');
        assert(s.skip(1) =~= rest);
        assert(sp_str_body(s) == Some((Seq::<char>::empty(), rest)));
        assert(Seq::<char>::empty() =~= t);
    } else {
        lemma_esc_cons(t);
        lemma_sp_str_body_enc(t.skip(1), rest);
        let c = t[0];
        if c == '"' || c == '\\' {
            assert(esc_char(c) =~= seq!['\\', c]);
            assert(s =~= seq!['\\', c] + (esc(t.skip(1)) + seq!['"'] + rest));
            assert(s[0] == '\\');
            assert(s[1] == c);
            assert(s.len() >= 2);
            assert(s.skip(2) =~= esc(t.skip(1)) + seq!['"'] + rest);
            assert(sp_str_body(s.skip(2)) == Some((t.skip(1), rest)));
            assert(seq![s[1]] + t.skip(1) =~= t);
        } else {
            assert(esc_char(c) =~= seq![c]);
            assert(s =~= seq![c] + (esc(t.skip(1)) + seq!['"'] + rest));
            assert(s[0] == c);
            assert(s.skip(1) =~= esc(t.skip(1)) + seq!['"'] + rest);
            assert(sp_str_body(s.skip(1)) == Some((t.skip(1), rest)));
            assert(seq![s[0]] + t.skip(1) =~= t);
        }
    }
}

proof fn lemma_sp_string_enc(t: Seq<char>, rest: Seq<char>)
    ensures
        sp_string(enc_str(t) + rest) == Some((t, rest)),
{
    let s = enc_str(t) + rest;
    assert(s[0] == '"');
    assert(s.skip(1) =~= esc(t) + seq!['"'] + rest);
    lemma_sp_str_body_enc(t, rest);
}

proof fn lemma_enc_num_digits(n: nat)
    ensures
        enc_num(n).len() >= 1,
        forall|i: int| 0 <= i < enc_num(n).len() ==> is_digit(#[trigger] enc_num(n)[i]),
    decreases n,
{
    if n < 10 {
        assert(is_digit(dig(n)));
    } else {
        lemma_enc_num_digits(n / 10);
        assert(is_digit(dig(n % 10)));
        assert forall|i: int| 0 <= i < enc_num(n).len() implies is_digit(
            #[trigger] enc_num(n)[i],
        ) by {
            if i < enc_num(n / 10).len() {
                assert(enc_num(n)[i] == enc_num(n / 10)[i]);
            } else {
                assert(enc_num(n)[i] == dig(n % 10));
            }
        }
    }
}

proof fn lemma_digits_val_enc_num(n: nat)
    ensures
        digits_val(enc_num(n)) == n,
    decreases n,
{
    if n < 10 {
        let d = enc_num(n);
        assert(d.len() == 1);
        assert(d.drop_last() =~= Seq::<char>::empty());
        assert(d.last() == dig(n));
        assert(dval(dig(n)) == n);
        assert(digits_val(d) == digits_val(d.drop_last()) * 10 + dval(d.last()));
        assert(digits_val(d.drop_last()) == 0);
    } else {
        lemma_digits_val_enc_num(n / 10);
        lemma_enc_num_digits(n / 10);
        let d = enc_num(n);
        assert(d.drop_last() =~= enc_num(n / 10));
        assert(d.last() == dig(n % 10));
        assert(dval(dig(n % 10)) == n % 10);
        assert(digits_val(d) == digits_val(d.drop_last()) * 10 + dval(d.last()));
        vstd::arithmetic::div_mod::lemma_fundamental_div_mod(n as int, 10);
    }
}

proof fn lemma_sp_digits_run(d: Seq<char>, rest: Seq<char>)
    requires
        forall|i: int| 0 <= i < d.len() ==> is_digit(#[trigger] d[i]),
        rest.len() == 0 || !is_digit(rest[0]),
    ensures
        sp_digits(d + rest) == (d, rest),
    decreases d.len(),
{
    let s = d + rest;
    if d.len() == 0 {
        assert(s =~= rest);
        assert(d =~= Seq::<char>::empty());
        if rest.len() == 0 {
        } else {
            assert(!is_digit(s[0]));
        }
    } else {
        assert(s[0] == d[0]);
        assert(is_digit(s[0]));
        assert(s.skip(1) =~= d.skip(1) + rest);
        lemma_sp_digits_run(d.skip(1), rest);
        assert(seq![s[0]] + d.skip(1) =~= d);
    }
}

proof fn lemma_sp_num_enc(n: usize, rest: Seq<char>)
    requires
        rest.len() == 0 || !is_digit(rest[0]),
    ensures
        sp_num(enc_num(n as nat) + rest) == Some((n, rest)),
{
    lemma_enc_num_digits(n as nat);
    lemma_digits_val_enc_num(n as nat);
    lemma_sp_digits_run(enc_num(n as nat), rest);
}

/// The array elements, written from the front: each one behind a comma.
pub open spec fn enc_ids_tail(ids: Seq<Seq<char>>) -> Seq<char>
    decreases ids.len(),
{
    if ids.len() == 0 {
        Seq::empty()
    } else {
        seq![','] + enc_str(ids[0]) + enc_ids_tail(ids.skip(1))
    }
}

proof fn lemma_enc_ids_tail_snoc(ids: Seq<Seq<char>>, x: Seq<char>)
    ensures
        enc_ids_tail(ids.push(x)) == enc_ids_tail(ids) + seq![','] + enc_str(x),
    decreases ids.len(),
{
    if ids.len() == 0 {
        assert(ids.push(x)[0] == x);
        assert(ids =~= Seq::<Seq<char>>::empty());
        assert(ids.push(x).skip(1) =~= Seq::<Seq<char>>::empty());
        assert(enc_ids_tail(ids.push(x)) =~= enc_ids_tail(ids) + seq![','] + enc_str(x));
    } else {
        lemma_enc_ids_tail_snoc(ids.skip(1), x);
        assert(ids.push(x)[0] == ids[0]);
        assert(ids.push(x).skip(1) =~= ids.skip(1).push(x));
        assert(enc_ids_tail(ids.push(x)) == seq![','] + enc_str(ids[0]) + (enc_ids_tail(
            ids.skip(1),
        ) + seq![','] + enc_str(x)));
        assert(enc_ids_tail(ids.push(x)) =~= enc_ids_tail(ids) + seq![','] + enc_str(x));
    }
}

proof fn lemma_enc_ids_front(ids: Seq<Seq<char>>)
    requires
        ids.len() > 0,
    ensures
        enc_ids(ids) == enc_str(ids[0]) + enc_ids_tail(ids.skip(1)),
    decreases ids.len(),
{
    if ids.len() == 1 {
        assert(ids.skip(1) =~= Seq::<Seq<char>>::empty());
        assert(enc_ids(ids) =~= enc_str(ids[0]) + enc_ids_tail(ids.skip(1)));
    } else {
        let u = ids.drop_last();
        lemma_enc_ids_front(u);
        lemma_enc_ids_tail_snoc(u.skip(1), ids.last());
        assert(u.skip(1).push(ids.last()) =~= ids.skip(1));
        assert(enc_ids(ids) == (enc_str(u[0]) + enc_ids_tail(u.skip(1))) + seq![','] + enc_str(
            ids.last(),
        ));
        assert(enc_ids(ids) =~= enc_str(ids[0]) + enc_ids_tail(ids.skip(1)));
    }
}

proof fn lemma_sp_ids_tail_enc(ids: Seq<Seq<char>>, rest: Seq<char>)
    ensures
        sp_ids_tail(enc_ids_tail(ids) + seq![']'] + rest) == Some((ids, rest)),
    decreases ids.len(),
{
    let s = enc_ids_tail(ids) + seq![']'] + rest;
    if ids.len() == 0 {
        assert(s =~= seq![']'] + rest);
        assert(s[0] == ']');
        assert(s.skip(1) =~= rest);
        assert(ids =~= Seq::<Seq<char>>::empty());
    } else {
        let tail1 = enc_ids_tail(ids.skip(1)) + seq![']'] + rest;
        assert(s =~= seq![','] + (enc_str(ids[0]) + tail1));
        assert(s[0] == ',');
        assert(s[0] != ']');
        assert(s.skip(1) =~= enc_str(ids[0]) + tail1);
        lemma_sp_string_enc(ids[0], tail1);
        assert(sp_string(s.skip(1)) == Some((ids[0], tail1)));
        assert(enc_str(ids[0]).len() >= 2);
        assert(tail1.len() < s.len());
        lemma_sp_ids_tail_enc(ids.skip(1), rest);
        assert(seq![ids[0]] + ids.skip(1) =~= ids);
    }
}

proof fn lemma_sp_ids_enc(ids: Seq<Seq<char>>, rest: Seq<char>)
    ensures
        sp_ids(seq!['['] + enc_ids(ids) + seq![']'] + rest) == Some((ids, rest)),
{
    let s = seq!['['] + enc_ids(ids) + seq![']'] + rest;
    assert(s[0] == '[');
    if ids.len() == 0 {
        assert(s =~= seq!['[', ']'] + rest);
        assert(s[1] == ']');
        assert(s.skip(2) =~= rest);
        assert(ids =~= Seq::<Seq<char>>::empty());
    } else {
        lemma_enc_ids_front(ids);
        let tail1 = enc_ids_tail(ids.skip(1)) + seq![']'] + rest;
        assert(s =~= seq!['['] + (enc_str(ids[0]) + tail1));
        assert(s[1] == '"');
        assert(s.len() >= 2);
        assert(s.skip(1) =~= enc_str(ids[0]) + tail1);
        lemma_sp_string_enc(ids[0], tail1);
        assert(enc_str(ids[0]).len() >= 2);
        assert(tail1.len() < s.len());
        lemma_sp_ids_tail_enc(ids.skip(1), rest);
        assert(seq![ids[0]] + ids.skip(1) =~= ids);
    }
}

/// Reading an optional numeric field: present exactly when its key text is
/// there, and the number stops at the first non-digit.
proof fn lemma_sp_opt_num_enc(o: Option<usize>, l: Seq<char>, tail: Seq<char>, s: Seq<char>)
    requires
        tail.len() > 0,
        !is_digit(tail[0]),
        match o {
            Some(n) => s == l + enc_num(n as nat) + tail,
            None => s == tail,
        },
        o is None ==> sp_lit(s, l) is None,
    ensures
        sp_opt_num(s, l) == Some((o, tail)),
{
    match o {
        Some(n) => {
            assert(s =~= l + (enc_num(n as nat) + tail));
            lemma_sp_lit_prefix(l, enc_num(n as nat) + tail);
            lemma_sp_num_enc(n, tail);
        },
        None => {},
    }
}

/// The facts the body proof needs of the encoded variant fields: they parse
/// back to the variant, and their head opens neither optional key nor a
/// number.
#[verifier::spinoff_prover]
proof fn lemma_sp_fields_enc(p: PayloadV, close: Seq<char>)
    requires
        close.len() > 0,
        close[0] == '}',
    ensures
        sp_payload(enc_type(p), enc_fields(p) + close) == Some((p, close)),
        (enc_fields(p) + close).len() > 0,
        !is_digit((enc_fields(p) + close)[0]),
        sp_lit(enc_fields(p) + close, ",\"in_reply_to\":"@) is None,
        sp_lit(enc_fields(p) + close, ",\"msg_id\":"@) is None,
{
    reveal_strlit(",\"in_reply_to\":");
    reveal_strlit(",\"msg_id\":");
    reveal_strlit(",\"echo\":");
    reveal_strlit(",\"node_id\":");
    reveal_strlit(",\"node_ids\":");
    reveal_strlit("echo");
    reveal_strlit("echo_ok");
    reveal_strlit("init");
    reveal_strlit("init_ok");
    let ty = enc_type(p);
    let tail_f = enc_fields(p) + close;
    match p {
        PayloadV::Echo { echo } => {
            assert(tail_f =~= ",\"echo\":"@ + (enc_str(echo) + close));
            lemma_sp_lit_prefix(",\"echo\":"@, enc_str(echo) + close);
            lemma_sp_string_enc(echo, close);
            assert(tail_f[0] == ',' && tail_f[2] == 'e');
            lemma_sp_lit_mismatch(tail_f, ",\"in_reply_to\":"@, 2);
            lemma_sp_lit_mismatch(tail_f, ",\"msg_id\":"@, 2);
        },
        PayloadV::EchoOk { echo } => {
            assert(ty.len() == 7);
            assert("echo"@.len() == 4);
            assert(tail_f =~= ",\"echo\":"@ + (enc_str(echo) + close));
            lemma_sp_lit_prefix(",\"echo\":"@, enc_str(echo) + close);
            lemma_sp_string_enc(echo, close);
            assert(tail_f[0] == ',' && tail_f[2] == 'e');
            lemma_sp_lit_mismatch(tail_f, ",\"in_reply_to\":"@, 2);
            lemma_sp_lit_mismatch(tail_f, ",\"msg_id\":"@, 2);
        },
        PayloadV::Init { node_id, node_ids } => {
            assert(ty[0] == 'i');
            assert("echo"@[0] == 'e');
            assert(ty.len() == 4);
            assert("echo_ok"@.len() == 7);
            let after_key = ",\"node_ids\":"@ + (seq!['['] + enc_ids(node_ids) + seq![']']
                + close);
            assert(tail_f =~= ",\"node_id\":"@ + (enc_str(node_id) + after_key));
            lemma_sp_lit_prefix(",\"node_id\":"@, enc_str(node_id) + after_key);
            lemma_sp_string_enc(node_id, after_key);
            lemma_sp_lit_prefix(",\"node_ids\":"@, seq!['['] + enc_ids(node_ids) + seq![']']
                + close);
            lemma_sp_ids_enc(node_ids, close);
            assert(tail_f[0] == ',' && tail_f[2] == 'n');
            lemma_sp_lit_mismatch(tail_f, ",\"in_reply_to\":"@, 2);
            lemma_sp_lit_mismatch(tail_f, ",\"msg_id\":"@, 2);
        },
        PayloadV::InitOk => {
            assert(ty[0] == 'i');
            assert("echo"@[0] == 'e');
            assert("echo_ok"@[0] == 'e');
            assert(ty.len() == 7);
            assert("init"@.len() == 4);
            assert(tail_f =~= close);
            assert(tail_f[0] == '}');
            assert(",\"in_reply_to\":"@[0] == ',');
            assert(",\"msg_id\":"@[0] == ',');
            lemma_sp_lit_mismatch(tail_f, ",\"in_reply_to\":"@, 0);
            lemma_sp_lit_mismatch(tail_f, ",\"msg_id\":"@, 0);
        },
    }
}

#[verifier::rlimit(100)]
#[verifier::spinoff_prover]
proof fn lemma_sp_body_enc(b: BodyV, rest: Seq<char>)
    ensures
        sp_body(enc_body(b) + rest) == Some((b, rest)),
{
    reveal_strlit(",\"in_reply_to\":");
    reveal_strlit(",\"msg_id\":");
    reveal_strlit("}");
    let p = b.payload;
    let ty = enc_type(p);
    let s = enc_body(b) + rest;
    let close = "}"@ + rest;
    let tail_f = enc_fields(p) + close;
    let tail_m = enc_msg_id(b.msg_id) + tail_f;
    let tail_i = enc_in_reply_to(b.in_reply_to) + tail_m;

    assert(s =~= "{\"type\":"@ + (enc_str(ty) + tail_i));
    lemma_sp_lit_prefix("{\"type\":"@, enc_str(ty) + tail_i);
    lemma_sp_string_enc(ty, tail_i);

    assert(close[0] == '}');
    lemma_sp_fields_enc(p, close);

    // The head of what follows the msg_id field is never a digit, and when
    // the field is absent its key text is not there.
    assert(tail_m.len() > 0 && !is_digit(tail_m[0])) by {
        match b.msg_id {
            Some(k) => {
                assert(tail_m =~= ",\"msg_id\":"@ + (enc_num(k as nat) + tail_f));
                assert(tail_m[0] == ',');
            },
            None => {
                assert(tail_m =~= tail_f);
            },
        }
    }
    match b.in_reply_to {
        Some(n) => {
            assert(tail_i =~= ",\"in_reply_to\":"@ + enc_num(n as nat) + tail_m);
            lemma_sp_opt_num_enc(b.in_reply_to, ",\"in_reply_to\":"@, tail_m, tail_i);
        },
        None => {
            assert(tail_i =~= tail_m);
            assert(sp_lit(tail_i, ",\"in_reply_to\":"@) is None) by {
                match b.msg_id {
                    Some(k) => {
                        assert(tail_m =~= ",\"msg_id\":"@ + (enc_num(k as nat) + tail_f));
                        assert(tail_m[2] == 'm');
                        assert(",\"in_reply_to\":"@[2] == 'i');
                        lemma_sp_lit_mismatch(tail_i, ",\"in_reply_to\":"@, 2);
                    },
                    None => {
                        assert(tail_i == tail_f);
                    },
                }
            }
            lemma_sp_opt_num_enc(b.in_reply_to, ",\"in_reply_to\":"@, tail_m, tail_i);
        },
    }
    assert(sp_opt_num(tail_i, ",\"in_reply_to\":"@) == Some((b.in_reply_to, tail_m)));

    match b.msg_id {
        Some(k) => {
            assert(tail_m =~= ",\"msg_id\":"@ + enc_num(k as nat) + tail_f);
            lemma_sp_opt_num_enc(b.msg_id, ",\"msg_id\":"@, tail_f, tail_m);
        },
        None => {
            assert(tail_m =~= tail_f);
            lemma_sp_opt_num_enc(b.msg_id, ",\"msg_id\":"@, tail_f, tail_m);
        },
    }
    assert(sp_opt_num(tail_m, ",\"msg_id\":"@) == Some((b.msg_id, tail_f)));

    lemma_sp_lit_prefix("}"@, rest);
    assert(sp_lit(close, "}"@) == Some(rest));
    assert(BodyV { msg_id: b.msg_id, in_reply_to: b.in_reply_to, payload: p } =~= b);
}

/// Law (round trip): parsing the encoding of any envelope yields exactly that
/// envelope, whatever the payload variant, the optional ids and the strings.
pub proof fn lemma_round_trip(m: MsgV)
    ensures
        sp_message(enc_message(m)) == Some(m),
{
    let s = enc_message(m);
    let t4 = "}"@;
    let t3 = enc_body(m.body) + t4;
    let t2 = ",\"body\":"@ + t3;
    let t1 = enc_str(m.dst) + t2;
    let t0 = ",\"dest\":"@ + t1;
    let ta = enc_str(m.src) + t0;
    assert(s =~= "{\"src\":"@ + ta);
    lemma_sp_lit_prefix("{\"src\":"@, ta);
    lemma_sp_string_enc(m.src, t0);
    lemma_sp_lit_prefix(",\"dest\":"@, t1);
    lemma_sp_string_enc(m.dst, t2);
    lemma_sp_lit_prefix(",\"body\":"@, t3);
    lemma_sp_body_enc(m.body, t4);
    assert(t4 =~= "}"@ + Seq::<char>::empty());
    lemma_sp_lit_prefix("}"@, Seq::<char>::empty());
    assert(sp_lit(t4, "}"@) == Some(Seq::<char>::empty()));
    assert(MsgV { src: m.src, dst: m.dst, body: m.body } =~= m);
}

// ---------------------------------------------------------------------------
// The executable parser.  Each piece is held to the corresponding spec
// parse function, on success and on failure alike.
// ---------------------------------------------------------------------------

/// Relies on `String`'s `FromIterator<char>` implementation: collecting
/// characters yields the string that holds exactly those characters in
/// order.
#[verifier::external_body]
fn string_from_chars(v: Vec<char>) -> (r: String)
    ensures
        r@ == v@,
{
    v.into_iter().collect()
}

/// The characters of a text line, in order.
fn chars_of(s: &str) -> (v: Vec<char>)
    ensures
        v@ == s@,
{
    let n = s.unicode_len();
    let mut v: Vec<char> = Vec::new();
    let mut i: usize = 0;
    while i < n
        invariant
            n == s@.len(),
            0 <= i <= n,
            v@ == s@.take(i as int),
        decreases n - i,
    {
        v.push(s.get_char(i));
        proof {
            assert(s@.take(i + 1 as int) =~= s@.take(i as int).push(s@[i as int]));
        }
        i = i + 1;
    }
    proof {
        assert(s@.take(n as int) =~= s@);
    }
    v
}

fn p_lit<'a>(s: &'a [char], l: &str) -> (r: Option<&'a [char]>)
    ensures
        match sp_lit(s@, l@) {
            Some(rr) => r matches Some(x) && x@ == rr,
            None => r is None,
        },
{
    let n = l.unicode_len();
    if n > s.len() {
        return None;
    }
    let mut i: usize = 0;
    while i < n
        invariant
            n == l@.len(),
            n <= s@.len(),
            0 <= i <= n,
            forall|j: int| 0 <= j < i ==> s@[j] == l@[j],
        decreases n - i,
    {
        let a = *slice_index_get(s, i);
        let b = l.get_char(i);
        if a != b {
            proof {
                if l@.len() <= s@.len() && s@.take(l@.len() as int) == l@ {
                    assert(s@.take(l@.len() as int)[i as int] == s@[i as int]);
                }
            }
            return None;
        }
        i = i + 1;
    }
    proof {
        assert(s@.take(n as int) =~= l@);
    }
    Some(slice_subrange(s, n, s.len()))
}

fn p_str_body<'a>(s: &'a [char]) -> (r: Option<(Vec<char>, &'a [char])>)
    ensures
        match sp_str_body(s@) {
            Some(tr) => r matches Some(x) && x.0@ == tr.0 && x.1@ == tr.1,
            None => r is None,
        },
    decreases s@.len(),
{
    if s.len() == 0 {
        return None;
    }
    let c = *slice_index_get(s, 0);
    if c == '"' {
        let v: Vec<char> = Vec::new();
        return Some((v, slice_subrange(s, 1, s.len())));
    }
    if c == '\\' {
        if s.len() < 2 {
            return None;
        }
        let e = *slice_index_get(s, 1);
        if e != '"' && e != '\\' {
            return None;
        }
        proof {
            assert(s@.subrange(2, s@.len() as int) =~= s@.skip(2));
        }
        match p_str_body(slice_subrange(s, 2, s.len())) {
            Some(x) => {
                let (mut v, rest) = x;
                let ghost v0 = v@;
                v.insert(0, e);
                proof {
                    assert(v@ =~= seq![s@[1]] + v0);
                }
                Some((v, rest))
            },
            None => None,
        }
    } else {
        proof {
            assert(s@.subrange(1, s@.len() as int) =~= s@.skip(1));
        }
        match p_str_body(slice_subrange(s, 1, s.len())) {
            Some(x) => {
                let (mut v, rest) = x;
                let ghost v0 = v@;
                v.insert(0, c);
                proof {
                    assert(v@ =~= seq![s@[0]] + v0);
                }
                Some((v, rest))
            },
            None => None,
        }
    }
}

fn p_string<'a>(s: &'a [char]) -> (r: Option<(String, &'a [char])>)
    ensures
        match sp_string(s@) {
            Some(tr) => r matches Some(x) && x.0@ == tr.0 && x.1@ == tr.1,
            None => r is None,
        },
{
    if s.len() == 0 {
        return None;
    }
    let c = *slice_index_get(s, 0);
    if c != '"' {
        return None;
    }
    proof {
        assert(s@.subrange(1, s@.len() as int) =~= s@.skip(1));
    }
    match p_str_body(slice_subrange(s, 1, s.len())) {
        Some(x) => Some((string_from_chars(x.0), x.1)),
        None => None,
    }
}

proof fn lemma_sp_digits_at(s: Seq<char>, k: int)
    requires
        0 <= k <= s.len(),
        forall|j: int| 0 <= j < k ==> is_digit(#[trigger] s[j]),
        k == s.len() || !is_digit(s[k]),
    ensures
        sp_digits(s) == (s.take(k), s.skip(k)),
    decreases k,
{
    if k == 0 {
        assert(s.take(0) =~= Seq::<char>::empty());
        assert(s.skip(0) =~= s);
    } else {
        assert(is_digit(s[0]));
        assert forall|j: int| 0 <= j < k - 1 implies is_digit(#[trigger] s.skip(1)[j]) by {
            assert(s.skip(1)[j] == s[j + 1]);
        }
        if k - 1 < s.skip(1).len() {
            assert(s.skip(1)[k - 1] == s[k]);
        }
        lemma_sp_digits_at(s.skip(1), k - 1);
        assert(seq![s[0]] + s.skip(1).take(k - 1) =~= s.take(k));
        assert(s.skip(1).skip(k - 1) =~= s.skip(k));
    }
}

proof fn lemma_digits_val_mono(d: Seq<char>, a: int, b: int)
    requires
        0 <= a <= b <= d.len(),
    ensures
        digits_val(d.take(a)) <= digits_val(d.take(b)),
    decreases b - a,
{
    if a < b {
        lemma_digits_val_mono(d, a, b - 1);
        assert(d.take(b).drop_last() =~= d.take(b - 1));
        assert(digits_val(d.take(b)) == digits_val(d.take(b - 1)) * 10 + dval(d.take(b).last()));
    }
}

fn p_num<'a>(s: &'a [char]) -> (r: Option<(usize, &'a [char])>)
    ensures
        match sp_num(s@) {
            Some(nr) => r matches Some(x) && x.0 == nr.0 && x.1@ == nr.1,
            None => r is None,
        },
{
    let n = s.len();
    let mut k: usize = 0;
    while k < n
        invariant_except_break
            n == s@.len(),
            0 <= k <= n,
            forall|j: int| 0 <= j < k ==> is_digit(#[trigger] s@[j]),
        ensures
            n == s@.len(),
            0 <= k <= n,
            forall|j: int| 0 <= j < k ==> is_digit(#[trigger] s@[j]),
            k == n || !is_digit(s@[k as int]),
        decreases n - k,
    {
        let c = *slice_index_get(s, k);
        let u = c as u32;
        if !(48 <= u && u <= 57) {
            break;
        }
        k = k + 1;
    }
    proof {
        lemma_sp_digits_at(s@, k as int);
    }
    if k == 0 {
        proof {
            assert(s@.take(0int).len() == 0);
        }
        return None;
    }
    let ghost run = s@.take(k as int);
    let mut acc: usize = 0;
    let mut j: usize = 0;
    while j < k
        invariant
            n == s@.len(),
            0 < k <= n,
            0 <= j <= k,
            forall|i: int| 0 <= i < k ==> is_digit(#[trigger] s@[i]),
            sp_digits(s@) == (s@.take(k as int), s@.skip(k as int)),
            acc == digits_val(s@.take(j as int)),
        decreases k - j,
    {
        let c = *slice_index_get(s, j);
        let u = c as u32;
        let d = (u - 48) as usize;
        proof {
            assert(is_digit(s@[j as int]));
            assert(s@.take(j + 1 as int).drop_last() =~= s@.take(j as int));
            assert(s@.take(j + 1 as int).last() == s@[j as int]);
            assert(digits_val(s@.take(j + 1 as int)) == digits_val(s@.take(j as int)) * 10
                + dval(s@[j as int]));
        }
        let step = match acc.checked_mul(10) {
            Some(m) => m.checked_add(d),
            None => None,
        };
        match step {
            Some(a) => {
                acc = a;
            },
            None => {
                proof {
                    assert(digits_val(s@.take(j + 1 as int)) > usize::MAX);
                    lemma_digits_val_mono(s@, j + 1, k as int);
                    assert(digits_val(s@.take(k as int)) > usize::MAX as nat);
                }
                return None;
            },
        }
        j = j + 1;
    }
    proof {
        assert(digits_val(s@.take(k as int)) == acc);
        assert(digits_val(s@.take(k as int)) <= usize::MAX as nat);
    }
    Some((acc, slice_subrange(s, k, n)))
}

fn p_opt_num<'a>(s: &'a [char], l: &str) -> (r: Option<(Option<usize>, &'a [char])>)
    ensures
        match sp_opt_num(s@, l@) {
            Some(tr) => r matches Some(x) && x.0 == tr.0 && x.1@ == tr.1,
            None => r is None,
        },
{
    match p_lit(s, l) {
        Some(rest) => match p_num(rest) {
            Some(x) => Some((Some(x.0), x.1)),
            None => None,
        },
        None => Some((None, s)),
    }
}

fn p_ids_tail<'a>(s: &'a [char]) -> (r: Option<(Vec<String>, &'a [char])>)
    ensures
        match sp_ids_tail(s@) {
            Some(tr) => r matches Some(x) && views_of(x.0@) == tr.0 && x.1@ == tr.1,
            None => r is None,
        },
    decreases s@.len(),
{
    if s.len() == 0 {
        return None;
    }
    let c = *slice_index_get(s, 0);
    if c == ']' {
        let v: Vec<String> = Vec::new();
        proof {
            assert(views_of(v@) =~= Seq::<Seq<char>>::empty());
        }
        return Some((v, slice_subrange(s, 1, s.len())));
    }
    if c != ',' {
        return None;
    }
    proof {
        assert(s@.subrange(1, s@.len() as int) =~= s@.skip(1));
    }
    match p_string(slice_subrange(s, 1, s.len())) {
        Some(x) => {
            let (t, rest) = x;
            if rest.len() < s.len() {
                match p_ids_tail(rest) {
                    Some(y) => {
                        let (mut v, rr) = y;
                        let ghost v0 = v@;
                        let ghost tview = t@;
                        v.insert(0, t);
                        proof {
                            assert(views_of(v@) =~= seq![tview] + views_of(v0));
                        }
                        Some((v, rr))
                    },
                    None => None,
                }
            } else {
                None
            }
        },
        None => None,
    }
}

fn p_ids<'a>(s: &'a [char]) -> (r: Option<(Vec<String>, &'a [char])>)
    ensures
        match sp_ids(s@) {
            Some(tr) => r matches Some(x) && views_of(x.0@) == tr.0 && x.1@ == tr.1,
            None => r is None,
        },
{
    if s.len() == 0 {
        return None;
    }
    let c = *slice_index_get(s, 0);
    if c != '[' {
        return None;
    }
    if s.len() >= 2 {
        let c2 = *slice_index_get(s, 1);
        if c2 == ']' {
            let v: Vec<String> = Vec::new();
            proof {
                assert(views_of(v@) =~= Seq::<Seq<char>>::empty());
            }
            return Some((v, slice_subrange(s, 2, s.len())));
        }
    }
    proof {
        assert(s@.subrange(1, s@.len() as int) =~= s@.skip(1));
    }
    match p_string(slice_subrange(s, 1, s.len())) {
        Some(x) => {
            let (t, rest) = x;
            if rest.len() < s.len() {
                match p_ids_tail(rest) {
                    Some(y) => {
                        let (mut v, rr) = y;
                        let ghost v0 = v@;
                        let ghost tview = t@;
                        v.insert(0, t);
                        proof {
                            assert(views_of(v@) =~= seq![tview] + views_of(v0));
                        }
                        Some((v, rr))
                    },
                    None => None,
                }
            } else {
                None
            }
        },
        None => None,
    }
}

fn str_eq_lit(t: &str, l: &str) -> (b: bool)
    ensures
        b == (t@ == l@),
{
    let n = t.unicode_len();
    let m = l.unicode_len();
    if n != m {
        proof {
            if t@ == l@ {
                assert(t@.len() == l@.len());
            }
        }
        return false;
    }
    let mut i: usize = 0;
    while i < n
        invariant
            n == t@.len(),
            n == l@.len(),
            0 <= i <= n,
            forall|j: int| 0 <= j < i ==> t@[j] == l@[j],
        decreases n - i,
    {
        if t.get_char(i) != l.get_char(i) {
            proof {
                if t@ == l@ {
                    assert(t@[i as int] == l@[i as int]);
                }
            }
            return false;
        }
        i = i + 1;
    }
    proof {
        assert(t@ =~= l@);
    }
    true
}

fn p_body<'a>(s: &'a [char]) -> (r: Option<(Body, &'a [char])>)
    ensures
        match sp_body(s@) {
            Some(tr) => r matches Some(x) && x.0@ == tr.0 && x.1@ == tr.1,
            None => r is None,
        },
{
    let r1 = match p_lit(s, "{\"type\":") {
        Some(x) => x,
        None => {
            return None;
        },
    };
    let (ty, r2) = match p_string(r1) {
        Some(x) => x,
        None => {
            return None;
        },
    };
    let (irt, r3) = match p_opt_num(r2, ",\"in_reply_to\":") {
        Some(x) => x,
        None => {
            return None;
        },
    };
    let (mid, r4) = match p_opt_num(r3, ",\"msg_id\":") {
        Some(x) => x,
        None => {
            return None;
        },
    };
    if str_eq_lit(ty.as_str(), "echo") {
        let r5 = match p_lit(r4, ",\"echo\":") {
            Some(x) => x,
            None => {
                return None;
            },
        };
        let (e, r6) = match p_string(r5) {
            Some(x) => x,
            None => {
                return None;
            },
        };
        let r7 = match p_lit(r6, "}") {
            Some(x) => x,
            None => {
                return None;
            },
        };
        let body = Body { msg_id: mid, in_reply_to: irt, payload: Payload::Echo { echo: e } };
        proof {
            assert(body@ =~= sp_body(s@)->Some_0.0);
        }
        Some((body, r7))
    } else if str_eq_lit(ty.as_str(), "echo_ok") {
        let r5 = match p_lit(r4, ",\"echo\":") {
            Some(x) => x,
            None => {
                return None;
            },
        };
        let (e, r6) = match p_string(r5) {
            Some(x) => x,
            None => {
                return None;
            },
        };
        let r7 = match p_lit(r6, "}") {
            Some(x) => x,
            None => {
                return None;
            },
        };
        let body = Body { msg_id: mid, in_reply_to: irt, payload: Payload::EchoOk { echo: e } };
        proof {
            assert(body@ =~= sp_body(s@)->Some_0.0);
        }
        Some((body, r7))
    } else if str_eq_lit(ty.as_str(), "init") {
        let r5 = match p_lit(r4, ",\"node_id\":") {
            Some(x) => x,
            None => {
                return None;
            },
        };
        let (nid, r6) = match p_string(r5) {
            Some(x) => x,
            None => {
                return None;
            },
        };
        let r7 = match p_lit(r6, ",\"node_ids\":") {
            Some(x) => x,
            None => {
                return None;
            },
        };
        let (ids, r8) = match p_ids(r7) {
            Some(x) => x,
            None => {
                return None;
            },
        };
        let r9 = match p_lit(r8, "}") {
            Some(x) => x,
            None => {
                return None;
            },
        };
        let body = Body {
            msg_id: mid,
            in_reply_to: irt,
            payload: Payload::Init { node_id: nid, node_ids: ids },
        };
        proof {
            assert(body@ =~= sp_body(s@)->Some_0.0);
        }
        Some((body, r9))
    } else if str_eq_lit(ty.as_str(), "init_ok") {
        let r5 = match p_lit(r4, "}") {
            Some(x) => x,
            None => {
                return None;
            },
        };
        let body = Body { msg_id: mid, in_reply_to: irt, payload: Payload::InitOk };
        proof {
            assert(body@ =~= sp_body(s@)->Some_0.0);
        }
        Some((body, r5))
    } else {
        None
    }
}

fn p_message(s: &[char]) -> (r: Option<Message>)
    ensures
        match sp_message(s@) {
            Some(mv) => r matches Some(m) && m@ == mv,
            None => r is None,
        },
{
    let r1 = match p_lit(s, "{\"src\":") {
        Some(x) => x,
        None => {
            return None;
        },
    };
    let (src, r2) = match p_string(r1) {
        Some(x) => x,
        None => {
            return None;
        },
    };
    let r3 = match p_lit(r2, ",\"dest\":") {
        Some(x) => x,
        None => {
            return None;
        },
    };
    let (dst, r4) = match p_string(r3) {
        Some(x) => x,
        None => {
            return None;
        },
    };
    let r5 = match p_lit(r4, ",\"body\":") {
        Some(x) => x,
        None => {
            return None;
        },
    };
    let (body, r6) = match p_body(r5) {
        Some(x) => x,
        None => {
            return None;
        },
    };
    let r7 = match p_lit(r6, "}") {
        Some(x) => x,
        None => {
            return None;
        },
    };
    if r7.len() == 0 {
        let m = Message { src, dst, body };
        proof {
            assert(m@ =~= sp_message(s@)->Some_0);
        }
        Some(m)
    } else {
        None
    }
}

/// Reads one line of the canonical rendering back as an envelope.  It
/// accepts exactly the grammar of `sp_message` — the rendering that
/// `encode_message` writes — and fails with `MalformedEnvelope` on every
/// other line: text outside that shape, a missing required field, a number
/// too large for the id type, or an unknown `type` discriminant.
///
/// This is the reader of the round-trip guarantee, not the transport's
/// input edge: a JSON record may reach the process in other equivalent
/// renderings (reordered keys, whitespace, `null` for an absent optional
/// field), and the transport turns those into `Message` values with an
/// ordinary JSON reader before the verified core sees them.
pub fn parse_canonical(line: &str) -> (r: Result<Message, Error>)
    ensures
        match sp_message(line@) {
            Some(mv) => r matches Ok(m) && m@ == mv,
            None => r == Err::<Message, Error>(Error::MalformedEnvelope),
        },
{
    let chars = chars_of(line);
    match p_message(chars.as_slice()) {
        Some(m) => Ok(m),
        None => Err(Error::MalformedEnvelope),
    }
}

} // verus!

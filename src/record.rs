//! Question and answer records: a name followed by fixed-size fields.
use vstd::prelude::*;

use crate::bits::{lemma_be_round_trip, be16, be16_bytes, be32, be32_bytes, push_u16, push_u32, read_u16, read_u32};
use crate::error::DnsError;
use crate::name::{holds_at, lemma_holds_split, lemma_name_round_trip, name_well_formed, deserialize_name, name_bytes, name_decoded, name_encodable, name_wire, serialize_name};

verus! {

/// A question: the name asked about, its record type and class.
#[derive(Debug)]
pub struct Question {
    pub name: String,
    pub record_type: u16,
    pub class: u16,
}

/// A question with its name as characters.
pub struct QuestionView {
    pub name: Seq<char>,
    pub record_type: u16,
    pub class: u16,
}

impl View for Question {
    type V = QuestionView;

    open spec fn view(&self) -> QuestionView {
        QuestionView { name: self.name@, record_type: self.record_type, class: self.class }
    }
}

/// An answer: a name, its type and class, a time to live, the declared data
/// length and the data itself.
#[derive(Debug)]
pub struct Answer {
    pub name: String,
    pub record_type: u16,
    pub class: u16,
    pub time_to_live: u32,
    pub length: u16,
    pub data: Vec<u8>,
}

/// An answer with its name as characters and its data as a sequence.
pub struct AnswerView {
    pub name: Seq<char>,
    pub record_type: u16,
    pub class: u16,
    pub time_to_live: u32,
    pub length: u16,
    pub data: Seq<u8>,
}

impl View for Answer {
    type V = AnswerView;

    open spec fn view(&self) -> AnswerView {
        AnswerView {
            name: self.name@,
            record_type: self.record_type,
            class: self.class,
            time_to_live: self.time_to_live,
            length: self.length,
            data: self.data@,
        }
    }
}

/// The record type of an address record.
pub const TYPE_A: u16 = 1;

/// The Internet class.
pub const CLASS_IN: u16 = 1;

/// The bytes a question is written as.
pub open spec fn question_wire(q: QuestionView) -> Seq<u8> {
    name_wire(name_bytes(q.name)) + be16_bytes(q.record_type) + be16_bytes(q.class)
}

/// The bytes an answer is written as.
pub open spec fn answer_wire(a: AnswerView) -> Seq<u8> {
    name_wire(name_bytes(a.name)) + be16_bytes(a.record_type) + be16_bytes(a.class) + be32_bytes(
        a.time_to_live,
    ) + be16_bytes(a.length) + a.data
}

/// What the question at `pos` decodes to, with the offset after it.
pub open spec fn question_decoded(buf: Seq<u8>, pos: int) -> Result<(QuestionView, int), DnsError> {
    match name_decoded(buf, pos) {
        Ok((name, p)) => if p + 4 > buf.len() {
            Err(DnsError::MalformedName)
        } else {
            Ok(
                (
                    QuestionView {
                        name,
                        record_type: be16(buf[p], buf[p + 1]),
                        class: be16(buf[p + 2], buf[p + 3]),
                    },
                    p + 4,
                ),
            )
        },
        Err(e) => Err(e),
    }
}

/// What the answer at `pos` decodes to, with the offset after it. Only
/// address records of the Internet class are read, and their data is the
/// four bytes after the length field, whatever that field says.
pub open spec fn answer_decoded(buf: Seq<u8>, pos: int) -> Result<(AnswerView, int), DnsError> {
    match name_decoded(buf, pos) {
        Ok((name, p)) => if p + 10 > buf.len() {
            Err(DnsError::MalformedName)
        } else if be16(buf[p], buf[p + 1]) != TYPE_A || be16(buf[p + 2], buf[p + 3]) != CLASS_IN {
            Err(DnsError::UnsupportedRecord)
        } else if p + 14 > buf.len() {
            Err(DnsError::MalformedName)
        } else {
            Ok(
                (
                    AnswerView {
                        name,
                        record_type: TYPE_A,
                        class: CLASS_IN,
                        time_to_live: be32(buf[p + 4], buf[p + 5], buf[p + 6], buf[p + 7]),
                        length: be16(buf[p + 8], buf[p + 9]),
                        data: buf.subrange(p + 10, p + 14),
                    },
                    p + 14,
                ),
            )
        },
        Err(e) => Err(e),
    }
}

impl Question {
    /// Reads the question at `pos`, and the offset after it.
    pub fn deserialize(raw: &[u8], pos: usize) -> (r: Result<(Question, usize), DnsError>)
        ensures
            match r {
                Ok((q, p)) => question_decoded(raw@, pos as int) == Ok::<(QuestionView, int), DnsError>((q@, p as int)),
                Err(e) => question_decoded(raw@, pos as int) == Err::<(QuestionView, int), DnsError>(e),
            },
    {
        let (name, p) = match deserialize_name(raw, pos) {
            Ok(v) => v,
            Err(e) => return Err(e),
        };
        if p > raw.len() || 4 > raw.len() - p {
            return Err(DnsError::MalformedName);
        }
        let record_type = read_u16(raw, p);
        let class = read_u16(raw, p + 2);
        Ok((Question { name, record_type, class }, p + 4))
    }

    /// Writes the question, or fails when a label of its name is too long.
    pub fn serialize(&self) -> (r: Result<Vec<u8>, DnsError>)
        ensures
            match r {
                Ok(v) => name_encodable(name_bytes(self.name@)) && v@ == question_wire(self@),
                Err(e) => e == DnsError::EncodingOverflow && !name_encodable(name_bytes(self.name@)),
            },
    {
        let mut out = match serialize_name(self.name.as_str()) {
            Ok(v) => v,
            Err(e) => return Err(e),
        };
        push_u16(&mut out, self.record_type);
        push_u16(&mut out, self.class);
        Ok(out)
    }
}

impl Answer {
    /// Reads the answer at `pos`, and the offset after it.
    pub fn deserialize(raw: &[u8], pos: usize) -> (r: Result<(Answer, usize), DnsError>)
        ensures
            match r {
                Ok((a, p)) => answer_decoded(raw@, pos as int) == Ok::<(AnswerView, int), DnsError>((a@, p as int)),
                Err(e) => answer_decoded(raw@, pos as int) == Err::<(AnswerView, int), DnsError>(e),
            },
    {
        let (name, mut p) = match deserialize_name(raw, pos) {
            Ok(v) => v,
            Err(e) => return Err(e),
        };
        if p > raw.len() || 10 > raw.len() - p {
            return Err(DnsError::MalformedName);
        }
        let record_type = read_u16(raw, p);
        p = p + 2;
        let class = read_u16(raw, p);
        p = p + 2;
        let time_to_live = read_u32(raw, p);
        p = p + 4;
        let length = read_u16(raw, p);
        p = p + 2;
        if record_type != TYPE_A || class != CLASS_IN {
            return Err(DnsError::UnsupportedRecord);
        }
        if 4 > raw.len() - p {
            return Err(DnsError::MalformedName);
        }
        let mut data: Vec<u8> = Vec::new();
        let start = p;
        let end = p + 4;
        while p < end
            invariant
                end == start + 4,
                end <= raw@.len(),
                start <= p <= end,
                data@ == raw@.subrange(start as int, p as int),
            decreases end - p,
        {
            data.push(raw[p]);
            p = p + 1;
            assert(data@ =~= raw@.subrange(start as int, p as int));
        }
        Ok((Answer { name, record_type, class, time_to_live, length, data }, p))
    }

    /// Writes the answer, or fails when a label of its name is too long.
    pub fn serialize(&self) -> (r: Result<Vec<u8>, DnsError>)
        ensures
            match r {
                Ok(v) => name_encodable(name_bytes(self.name@)) && v@ == answer_wire(self@),
                Err(e) => e == DnsError::EncodingOverflow && !name_encodable(name_bytes(self.name@)),
            },
    {
        let mut out = match serialize_name(self.name.as_str()) {
            Ok(v) => v,
            Err(e) => return Err(e),
        };
        push_u16(&mut out, self.record_type);
        push_u16(&mut out, self.class);
        push_u32(&mut out, self.time_to_live);
        push_u16(&mut out, self.length);
        let mut i: usize = 0;
        let ghost before = out@;
        while i < self.data.len()
            invariant
                i <= self.data@.len(),
                out@ == before + self.data@.subrange(0, i as int),
            decreases self.data@.len() - i,
        {
            out.push(self.data[i]);
            i = i + 1;
            assert(out@ =~= before + self.data@.subrange(0, i as int));
        }
        assert(self.data@.subrange(0, i as int) =~= self.data@);
        Ok(out)
    }
}

/// An address record of the Internet class with a well-formed name and a
/// four-byte address, the one kind of answer that decoding reads.
pub open spec fn answer_well_formed(a: AnswerView) -> bool {
    &&& name_well_formed(a.name)
    &&& a.record_type == TYPE_A
    &&& a.class == CLASS_IN
    &&& a.data.len() == 4
}

/// A question with a well-formed name, written at `p`, decodes to itself.
pub proof fn lemma_question_round_trip(buf: Seq<u8>, p: int, q: QuestionView)
    requires
        name_well_formed(q.name),
        holds_at(buf, p, question_wire(q)),
    ensures
        question_decoded(buf, p) == Ok::<(QuestionView, int), DnsError>(
            (q, p + question_wire(q).len()),
        ),
{
    let nw = name_wire(name_bytes(q.name));
    let t = be16_bytes(q.record_type);
    let c = be16_bytes(q.class);
    lemma_holds_split(buf, p, nw + t, c);
    lemma_holds_split(buf, p, nw, t);
    lemma_name_round_trip(buf, p, q.name);
    lemma_be_round_trip(q.record_type, 0);
    lemma_be_round_trip(q.class, 0);
    let e = p + nw.len();
    assert(buf[e] == buf.subrange(e, e + 2)[0]);
    assert(buf[e + 1] == buf.subrange(e, e + 2)[1]);
    assert(buf[e + 2] == buf.subrange(e + 2, e + 4)[0]);
    assert(buf[e + 3] == buf.subrange(e + 2, e + 4)[1]);
}

/// A well-formed answer written at `p` decodes to itself.
pub proof fn lemma_answer_round_trip(buf: Seq<u8>, p: int, a: AnswerView)
    requires
        answer_well_formed(a),
        holds_at(buf, p, answer_wire(a)),
    ensures
        answer_decoded(buf, p) == Ok::<(AnswerView, int), DnsError>((a, p + answer_wire(a).len())),
{
    let nw = name_wire(name_bytes(a.name));
    let t = be16_bytes(a.record_type);
    let c = be16_bytes(a.class);
    let ttl = be32_bytes(a.time_to_live);
    let len = be16_bytes(a.length);
    lemma_holds_split(buf, p, nw + t + c + ttl + len, a.data);
    lemma_holds_split(buf, p, nw + t + c + ttl, len);
    lemma_holds_split(buf, p, nw + t + c, ttl);
    lemma_holds_split(buf, p, nw + t, c);
    lemma_holds_split(buf, p, nw, t);
    lemma_name_round_trip(buf, p, a.name);
    lemma_be_round_trip(a.record_type, a.time_to_live);
    lemma_be_round_trip(a.class, 0);
    lemma_be_round_trip(a.length, 0);
    let e = p + nw.len();
    assert(buf[e] == buf.subrange(e, e + 2)[0]);
    assert(buf[e + 1] == buf.subrange(e, e + 2)[1]);
    assert(buf[e + 2] == buf.subrange(e + 2, e + 4)[0]);
    assert(buf[e + 3] == buf.subrange(e + 2, e + 4)[1]);
    assert(buf[e + 4] == buf.subrange(e + 4, e + 8)[0]);
    assert(buf[e + 5] == buf.subrange(e + 4, e + 8)[1]);
    assert(buf[e + 6] == buf.subrange(e + 4, e + 8)[2]);
    assert(buf[e + 7] == buf.subrange(e + 4, e + 8)[3]);
    assert(buf[e + 8] == buf.subrange(e + 8, e + 10)[0]);
    assert(buf[e + 9] == buf.subrange(e + 8, e + 10)[1]);
    assert(answer_wire(a).len() == nw.len() + 14);
}

} // verus!

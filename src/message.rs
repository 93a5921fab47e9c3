//! Whole messages: a header, then its questions, then its answers, in one
//! 512-byte datagram.
use vstd::prelude::*;

use crate::error::DnsError;
use crate::header::{header_decoded, header_wire, lemma_header_round_trip, op_code_of, op_code_value, Header};
use crate::name::{holds_at, lemma_holds_split, name_bytes, name_encodable, name_well_formed};
use crate::record::{
    answer_decoded, answer_well_formed, answer_wire, lemma_answer_round_trip,
    lemma_question_round_trip, question_decoded, question_wire, Answer, AnswerView, Question,
    QuestionView,
};

verus! {

/// The size of a datagram, and the most a message may take.
pub const MESSAGE_SIZE: usize = 512;

/// The size of the header.
pub const HEADER_SIZE: usize = 12;

/// A message: the header, the questions and the answers it carries.
#[derive(Debug)]
pub struct DnsMessage {
    pub header: Header,
    pub questions: Vec<Question>,
    pub answers: Vec<Answer>,
}

/// A message with its records seen through their views.
pub struct MessageView {
    pub header: Header,
    pub questions: Seq<QuestionView>,
    pub answers: Seq<AnswerView>,
}

/// The views of a list of questions.
pub open spec fn questions_view(qs: Seq<Question>) -> Seq<QuestionView> {
    qs.map_values(|q: Question| q@)
}

/// The views of a list of answers.
pub open spec fn answers_view(answers: Seq<Answer>) -> Seq<AnswerView> {
    answers.map_values(|a: Answer| a@)
}

impl View for DnsMessage {
    type V = MessageView;

    open spec fn view(&self) -> MessageView {
        MessageView {
            header: self.header,
            questions: questions_view(self.questions@),
            answers: answers_view(self.answers@),
        }
    }
}

/// What `n` questions read one after another from `pos` decode to, with the
/// offset after the last.
pub open spec fn questions_decoded(buf: Seq<u8>, pos: int, n: nat) -> Result<
    (Seq<QuestionView>, int),
    DnsError,
>
    decreases n,
{
    if n == 0 {
        Ok((Seq::empty(), pos))
    } else {
        match questions_decoded(buf, pos, (n - 1) as nat) {
            Ok((qs, p)) => match question_decoded(buf, p) {
                Ok((q, p2)) => Ok((qs.push(q), p2)),
                Err(e) => Err(e),
            },
            Err(e) => Err(e),
        }
    }
}

/// What `n` answers read one after another from `pos` decode to, with the
/// offset after the last.
pub open spec fn answers_decoded(buf: Seq<u8>, pos: int, n: nat) -> Result<
    (Seq<AnswerView>, int),
    DnsError,
>
    decreases n,
{
    if n == 0 {
        Ok((Seq::empty(), pos))
    } else {
        match answers_decoded(buf, pos, (n - 1) as nat) {
            Ok((answers, p)) => match answer_decoded(buf, p) {
                Ok((a, p2)) => Ok((answers.push(a), p2)),
                Err(e) => Err(e),
            },
            Err(e) => Err(e),
        }
    }
}

/// What a datagram decodes to: the header, then as many questions as it
/// counts, then as many answers as it counts, from where the questions end.
pub open spec fn message_decoded(buf: Seq<u8>) -> Result<MessageView, DnsError>
    recommends
        buf.len() >= HEADER_SIZE,
{
    match header_decoded(buf) {
        Ok(header) => match questions_decoded(buf, HEADER_SIZE as int, header.qd_count as nat) {
            Ok((questions, p)) => match answers_decoded(buf, p, header.an_count as nat) {
                Ok((answers, _)) => Ok(MessageView { header, questions, answers }),
                Err(e) => Err(e),
            },
            Err(e) => Err(e),
        },
        Err(e) => Err(e),
    }
}

/// The questions written one after another.
pub open spec fn questions_wire(qs: Seq<QuestionView>) -> Seq<u8>
    decreases qs.len(),
{
    if qs.len() == 0 {
        Seq::empty()
    } else {
        questions_wire(qs.drop_last()) + question_wire(qs.last())
    }
}

/// The answers written one after another.
pub open spec fn answers_wire(answers: Seq<AnswerView>) -> Seq<u8>
    decreases answers.len(),
{
    if answers.len() == 0 {
        Seq::empty()
    } else {
        answers_wire(answers.drop_last()) + answer_wire(answers.last())
    }
}

/// The bytes of a message before padding: header, questions, answers.
pub open spec fn message_wire(m: MessageView) -> Seq<u8> {
    header_wire(m.header) + questions_wire(m.questions) + answers_wire(m.answers)
}

/// Every question's name can be encoded.
pub open spec fn questions_encodable(qs: Seq<QuestionView>) -> bool {
    forall|i: int| 0 <= i < qs.len() ==> name_encodable(name_bytes(#[trigger] qs[i].name))
}

/// Every answer's name can be encoded.
pub open spec fn answers_encodable(answers: Seq<AnswerView>) -> bool {
    forall|i: int| 0 <= i < answers.len() ==> name_encodable(name_bytes(#[trigger] answers[i].name))
}

/// A message can be encoded: all its names can, and it fits in a datagram.
pub open spec fn message_encodable(m: MessageView) -> bool {
    &&& questions_encodable(m.questions)
    &&& answers_encodable(m.answers)
    &&& message_wire(m).len() <= MESSAGE_SIZE
}

/// The datagram a message is sent as: its bytes, then zeros up to 512.
pub open spec fn message_datagram(m: MessageView) -> Seq<u8> {
    message_wire(m) + Seq::new((MESSAGE_SIZE - message_wire(m).len()) as nat, |i: int| 0u8)
}

proof fn lemma_questions_wire_prefix(qs: Seq<QuestionView>, i: int)
    requires
        0 <= i <= qs.len(),
    ensures
        questions_wire(qs.subrange(0, i)).len() <= questions_wire(qs).len(),
    decreases qs.len() - i,
{
    if i < qs.len() {
        lemma_questions_wire_prefix(qs, i + 1);
        assert(qs.subrange(0, i + 1).drop_last() =~= qs.subrange(0, i));
    } else {
        assert(qs.subrange(0, i) =~= qs);
    }
}

proof fn lemma_answers_wire_prefix(answers: Seq<AnswerView>, i: int)
    requires
        0 <= i <= answers.len(),
    ensures
        answers_wire(answers.subrange(0, i)).len() <= answers_wire(answers).len(),
    decreases answers.len() - i,
{
    if i < answers.len() {
        lemma_answers_wire_prefix(answers, i + 1);
        assert(answers.subrange(0, i + 1).drop_last() =~= answers.subrange(0, i));
    } else {
        assert(answers.subrange(0, i) =~= answers);
    }
}

proof fn lemma_questions_error_stays(buf: Seq<u8>, pos: int, k: nat, n: nat)
    requires
        k <= n,
        questions_decoded(buf, pos, k) is Err,
    ensures
        questions_decoded(buf, pos, n) == questions_decoded(buf, pos, k),
    decreases n - k,
{
    if k < n {
        lemma_questions_error_stays(buf, pos, k, (n - 1) as nat);
    }
}

proof fn lemma_answers_error_stays(buf: Seq<u8>, pos: int, k: nat, n: nat)
    requires
        k <= n,
        answers_decoded(buf, pos, k) is Err,
    ensures
        answers_decoded(buf, pos, n) == answers_decoded(buf, pos, k),
    decreases n - k,
{
    if k < n {
        lemma_answers_error_stays(buf, pos, k, (n - 1) as nat);
    }
}

impl DnsMessage {
    /// Decodes a datagram.
    pub fn deserialize(buf: &[u8; 512]) -> (r: Result<DnsMessage, DnsError>)
        ensures
            match r {
                Ok(m) => message_decoded(buf@) == Ok::<MessageView, DnsError>(m@),
                Err(e) => message_decoded(buf@) == Err::<MessageView, DnsError>(e),
            },
    {
        let raw = buf.as_slice();
        let header = match Header::deserialize(raw) {
            Ok(h) => h,
            Err(e) => return Err(e),
        };
        let (questions, pos) = match Self::deserialize_questions(raw, header.qd_count) {
            Ok(v) => v,
            Err(e) => return Err(e),
        };
        let (answers, _) = match Self::deserialize_answers(raw, header.an_count, pos) {
            Ok(v) => v,
            Err(e) => return Err(e),
        };
        Ok(DnsMessage { header, questions, answers })
    }

    fn deserialize_questions(raw: &[u8], qd_count: u16) -> (r: Result<(Vec<Question>, usize), DnsError>)
        ensures
            match r {
                Ok((qs, p)) => questions_decoded(raw@, HEADER_SIZE as int, qd_count as nat)
                    == Ok::<(Seq<QuestionView>, int), DnsError>((questions_view(qs@), p as int)),
                Err(e) => questions_decoded(raw@, HEADER_SIZE as int, qd_count as nat) == Err::<
                    (Seq<QuestionView>, int),
                    DnsError,
                >(e),
            },
    {
        let mut questions: Vec<Question> = Vec::new();
        let mut pos: usize = HEADER_SIZE;
        let mut i: u16 = 0;
        assert(questions_view(questions@) =~= Seq::<QuestionView>::empty());
        while i < qd_count
            invariant
                i <= qd_count,
                questions_decoded(raw@, HEADER_SIZE as int, i as nat) == Ok::<
                    (Seq<QuestionView>, int),
                    DnsError,
                >((questions_view(questions@), pos as int)),
            decreases qd_count - i,
        {
            let (q, next) = match Question::deserialize(raw, pos) {
                Ok(v) => v,
                Err(e) => {
                    proof {
                        lemma_questions_error_stays(raw@, HEADER_SIZE as int, (i + 1) as nat, qd_count as nat);
                    }
                    return Err(e);
                },
            };
            let ghost before = questions@;
            questions.push(q);
            assert(questions_view(questions@) =~= questions_view(before).push(q@));
            pos = next;
            i = i + 1;
        }
        Ok((questions, pos))
    }

    fn deserialize_answers(raw: &[u8], an_count: u16, start: usize) -> (r: Result<
        (Vec<Answer>, usize),
        DnsError,
    >)
        ensures
            match r {
                Ok((answers, p)) => answers_decoded(raw@, start as int, an_count as nat) == Ok::<
                    (Seq<AnswerView>, int),
                    DnsError,
                >((answers_view(answers@), p as int)),
                Err(e) => answers_decoded(raw@, start as int, an_count as nat) == Err::<
                    (Seq<AnswerView>, int),
                    DnsError,
                >(e),
            },
    {
        let mut answers: Vec<Answer> = Vec::new();
        let mut pos: usize = start;
        let mut i: u16 = 0;
        assert(answers_view(answers@) =~= Seq::<AnswerView>::empty());
        while i < an_count
            invariant
                i <= an_count,
                answers_decoded(raw@, start as int, i as nat) == Ok::<(Seq<AnswerView>, int), DnsError>(
                    (answers_view(answers@), pos as int),
                ),
            decreases an_count - i,
        {
            let (a, next) = match Answer::deserialize(raw, pos) {
                Ok(v) => v,
                Err(e) => {
                    proof {
                        lemma_answers_error_stays(raw@, start as int, (i + 1) as nat, an_count as nat);
                    }
                    return Err(e);
                },
            };
            let ghost before = answers@;
            answers.push(a);
            assert(answers_view(answers@) =~= answers_view(before).push(a@));
            pos = next;
            i = i + 1;
        }
        Ok((answers, pos))
    }

    /// Encodes the message as a 512-byte datagram, zero-padded; fails when a
    /// label is too long or the message does not fit.
    pub fn serialize(&self) -> (r: Result<[u8; 512], DnsError>)
        requires
            self.header.wf(),
        ensures
            match r {
                Ok(buf) => message_encodable(self@) && buf@ == message_datagram(self@),
                Err(e) => e == DnsError::EncodingOverflow && !message_encodable(self@),
            },
    {
        let mut out = self.header.serialize();
        match Self::copy_questions(&self.questions, &mut out) {
            Ok(()) => {},
            Err(e) => return Err(e),
        }
        match Self::copy_answers(&self.answers, &mut out) {
            Ok(()) => {},
            Err(e) => return Err(e),
        }
        let mut msg: [u8; 512] = [0u8; 512];
        let mut i: usize = 0;
        while i < out.len()
            invariant
                out@.len() <= MESSAGE_SIZE,
                i <= out@.len(),
                msg@.len() == MESSAGE_SIZE,
                forall|k: int| 0 <= k < i ==> msg@[k] == out@[k],
                forall|k: int| i <= k < MESSAGE_SIZE ==> msg@[k] == 0u8,
            decreases out@.len() - i,
        {
            msg[i] = out[i];
            i = i + 1;
        }
        assert(msg@ =~= message_datagram(self@));
        Ok(msg)
    }

    /// Appends each question's bytes, keeping the total within a datagram.
    fn copy_questions(questions: &Vec<Question>, out: &mut Vec<u8>) -> (r: Result<(), DnsError>)
        requires
            old(out)@.len() <= MESSAGE_SIZE,
        ensures
            match r {
                Ok(()) => questions_encodable(questions_view(questions@))
                    && final(out)@ == old(out)@ + questions_wire(questions_view(questions@))
                    && final(out)@.len() <= MESSAGE_SIZE,
                Err(e) => e == DnsError::EncodingOverflow && (!questions_encodable(
                    questions_view(questions@),
                ) || old(out)@.len() + questions_wire(questions_view(questions@)).len()
                    > MESSAGE_SIZE),
            },
    {
        let ghost qs = questions_view(questions@);
        let ghost start = out@;
        let mut i: usize = 0;
        assert(qs.subrange(0, 0) =~= Seq::<QuestionView>::empty());
        while i < questions.len()
            invariant
                qs == questions_view(questions@),
                start == old(out)@,
                i <= qs.len(),
                out@ == start + questions_wire(qs.subrange(0, i as int)),
                out@.len() <= MESSAGE_SIZE,
                questions_encodable(qs.subrange(0, i as int)),
            decreases qs.len() - i,
        {
            assert(qs.subrange(0, i + 1).drop_last() =~= qs.subrange(0, i as int));
            let mut bytes = match questions[i].serialize() {
                Ok(b) => b,
                Err(e) => {
                    assert(!name_encodable(name_bytes(qs[i as int].name)));
                    return Err(e);
                },
            };
            if bytes.len() > MESSAGE_SIZE - out.len() {
                proof {
                    assert(qs[i as int] == questions@[i as int]@);
                    assert(questions_wire(qs.subrange(0, i + 1)) == questions_wire(qs.subrange(0, i as int)) + bytes@);
                    lemma_questions_wire_prefix(qs, i + 1);
                }
                return Err(DnsError::EncodingOverflow);
            }
            out.append(&mut bytes);
            i = i + 1;
            assert(out@ =~= start + questions_wire(qs.subrange(0, i as int)));
        }
        assert(qs.subrange(0, i as int) =~= qs);
        Ok(())
    }

    /// Appends each answer's bytes, keeping the total within a datagram.
    fn copy_answers(answers: &Vec<Answer>, out: &mut Vec<u8>) -> (r: Result<(), DnsError>)
        requires
            old(out)@.len() <= MESSAGE_SIZE,
        ensures
            match r {
                Ok(()) => answers_encodable(answers_view(answers@))
                    && final(out)@ == old(out)@ + answers_wire(answers_view(answers@))
                    && final(out)@.len() <= MESSAGE_SIZE,
                Err(e) => e == DnsError::EncodingOverflow && (!answers_encodable(
                    answers_view(answers@),
                ) || old(out)@.len() + answers_wire(answers_view(answers@)).len()
                    > MESSAGE_SIZE),
            },
    {
        let ghost av = answers_view(answers@);
        let ghost start = out@;
        let mut i: usize = 0;
        assert(av.subrange(0, 0) =~= Seq::<AnswerView>::empty());
        while i < answers.len()
            invariant
                av == answers_view(answers@),
                start == old(out)@,
                i <= av.len(),
                out@ == start + answers_wire(av.subrange(0, i as int)),
                out@.len() <= MESSAGE_SIZE,
                answers_encodable(av.subrange(0, i as int)),
            decreases av.len() - i,
        {
            assert(av.subrange(0, i + 1).drop_last() =~= av.subrange(0, i as int));
            let mut bytes = match answers[i].serialize() {
                Ok(b) => b,
                Err(e) => {
                    assert(!name_encodable(name_bytes(av[i as int].name)));
                    return Err(e);
                },
            };
            if bytes.len() > MESSAGE_SIZE - out.len() {
                proof {
                    assert(av[i as int] == answers@[i as int]@);
                    assert(answers_wire(av.subrange(0, i + 1)) == answers_wire(av.subrange(0, i as int)) + bytes@);
                    lemma_answers_wire_prefix(av, i + 1);
                }
                return Err(DnsError::EncodingOverflow);
            }
            out.append(&mut bytes);
            i = i + 1;
            assert(out@ =~= start + answers_wire(av.subrange(0, i as int)));
        }
        assert(av.subrange(0, i as int) =~= av);
        Ok(())
    }
}

/// A message that decoding gives back: its operation code is read back as
/// the variant it is, its counts match its lists, its names are well-formed
/// and its answers are four-byte address records of the Internet class.
pub open spec fn message_well_formed(m: MessageView) -> bool {
    &&& m.header.wf()
    &&& op_code_of(op_code_value(m.header.op_code)) == m.header.op_code
    &&& m.header.qd_count == m.questions.len()
    &&& m.header.an_count == m.answers.len()
    &&& forall|i: int| 0 <= i < m.questions.len() ==> name_well_formed(#[trigger] m.questions[i].name)
    &&& forall|i: int| 0 <= i < m.answers.len() ==> answer_well_formed(#[trigger] m.answers[i])
}

proof fn lemma_questions_round_trip(buf: Seq<u8>, p: int, qs: Seq<QuestionView>)
    requires
        holds_at(buf, p, questions_wire(qs)),
        forall|i: int| 0 <= i < qs.len() ==> name_well_formed(#[trigger] qs[i].name),
    ensures
        questions_decoded(buf, p, qs.len()) == Ok::<(Seq<QuestionView>, int), DnsError>(
            (qs, p + questions_wire(qs).len()),
        ),
    decreases qs.len(),
{
    if qs.len() > 0 {
        let init = qs.drop_last();
        lemma_holds_split(buf, p, questions_wire(init), question_wire(qs.last()));
        assert(forall|i: int| 0 <= i < init.len() ==> init[i] == qs[i]);
        lemma_questions_round_trip(buf, p, init);
        lemma_question_round_trip(buf, p + questions_wire(init).len(), qs.last());
        assert(init.push(qs.last()) =~= qs);
    } else {
        assert(qs =~= Seq::<QuestionView>::empty());
    }
}

proof fn lemma_answers_round_trip(buf: Seq<u8>, p: int, answers: Seq<AnswerView>)
    requires
        holds_at(buf, p, answers_wire(answers)),
        forall|i: int| 0 <= i < answers.len() ==> answer_well_formed(#[trigger] answers[i]),
    ensures
        answers_decoded(buf, p, answers.len()) == Ok::<(Seq<AnswerView>, int), DnsError>(
            (answers, p + answers_wire(answers).len()),
        ),
    decreases answers.len(),
{
    if answers.len() > 0 {
        let init = answers.drop_last();
        lemma_holds_split(buf, p, answers_wire(init), answer_wire(answers.last()));
        assert(forall|i: int| 0 <= i < init.len() ==> init[i] == answers[i]);
        lemma_answers_round_trip(buf, p, init);
        lemma_answer_round_trip(buf, p + answers_wire(init).len(), answers.last());
        assert(init.push(answers.last()) =~= answers);
    } else {
        assert(answers =~= Seq::<AnswerView>::empty());
    }
}

/// Decoding the datagram a well-formed message is encoded as gives the
/// message back.
pub proof fn lemma_message_round_trip(m: MessageView)
    requires
        message_well_formed(m),
        message_encodable(m),
    ensures
        message_decoded(message_datagram(m)) == Ok::<MessageView, DnsError>(m),
{
    let buf = message_datagram(m);
    let hw = header_wire(m.header);
    let qw = questions_wire(m.questions);
    let aw = answers_wire(m.answers);
    let h = HEADER_SIZE as int;
    assert(holds_at(buf, h, qw) && holds_at(buf, h + qw.len(), aw) && hw.len() == h) by {
        assert(buf.subrange(0, message_wire(m).len() as int) =~= message_wire(m));
        lemma_holds_split(buf, 0, hw + qw, aw);
        lemma_holds_split(buf, 0, hw, qw);
    }
    assert(header_decoded(buf) == Ok::<Header, DnsError>(m.header)) by {
        assert(buf =~= hw + buf.subrange(h, buf.len() as int));
        lemma_header_round_trip(m.header, buf.subrange(h, buf.len() as int));
    }
    lemma_questions_round_trip(buf, h, m.questions);
    lemma_answers_round_trip(buf, h + qw.len(), m.answers);
}

} // verus!

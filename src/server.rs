//! The decisions of the stub server: its configuration, the synthesized
//! response of resolving mode, and the steps of forwarding mode.
use vstd::prelude::*;

use crate::header::{Header, OperationCode, QueryResponseIndicator, ResponseCode};
use crate::message::{answers_view, questions_view, DnsMessage, MessageView};
use crate::record::{Answer, AnswerView, Question, QuestionView, CLASS_IN, TYPE_A};

verus! {

/// The address the server listens on.
pub open spec fn bind_addr_spec() -> Seq<char> {
    "127.0.0.1:2053"@
}

/// Where answers come from.
pub enum DnsServerMode {
    /// Every question gets a synthesized address record.
    ResolvingServer,
    /// Every question is forwarded to the upstream resolver at this address.
    ForwardingServer(String),
}

/// How the server runs: where it listens, and in which mode.
pub struct DnsServerConfig {
    pub bind_addr: String,
    pub mode: DnsServerMode,
}

impl DnsServerConfig {
    /// Reads the command line (program name first): `--resolver <addr>`
    /// selects forwarding to `addr`; anything else selects resolving.
    pub fn new(args: Vec<String>) -> (r: DnsServerConfig)
        ensures
            r.bind_addr@ == bind_addr_spec(),
            match r.mode {
                DnsServerMode::ForwardingServer(addr) => args@.len() >= 3 && args@[1]@ == "--resolver"@
                    && addr@ == args@[2]@,
                DnsServerMode::ResolvingServer => !(args@.len() >= 3 && args@[1]@ == "--resolver"@),
            },
    {
        let bind_addr = "127.0.0.1:2053".to_owned();
        let flag = "--resolver".to_owned();
        let mode = if args.len() >= 3 && args[1] == flag {
            DnsServerMode::ForwardingServer(args[2].clone())
        } else {
            DnsServerMode::ResolvingServer
        };
        DnsServerConfig { bind_addr, mode }
    }
}

/// The address that resolving mode answers every question with.
pub open spec fn placeholder_address() -> Seq<u8> {
    seq![8u8, 8u8, 8u8, 8u8]
}

/// The time to live of a synthesized answer, in seconds.
pub const SYNTHESIZED_TTL: u32 = 60;

/// The response code for a query: the standard query is served, other kinds are not.
pub open spec fn served_r_code(op: OperationCode) -> ResponseCode {
    if op == OperationCode::Query {
        ResponseCode::NoError
    } else {
        ResponseCode::NotImplemented
    }
}

/// The header of a response to a query with header `q`: same id, operation
/// code and recursion-desired flag; the given code and counts.
pub open spec fn response_header(q: Header, r_code: ResponseCode, qd_count: u16, an_count: u16) -> Header {
    Header {
        packet_id: q.packet_id,
        qr_ind: QueryResponseIndicator::Response,
        op_code: q.op_code,
        is_auth_ans: false,
        is_trunc: false,
        is_rec_desired: q.is_rec_desired,
        is_rec_available: false,
        r_code,
        qd_count,
        an_count,
        ns_count: 0,
        ar_count: 0,
    }
}

/// The synthesized answer to a question: an address record for its name.
pub open spec fn synthesized_answer(q: QuestionView) -> AnswerView {
    AnswerView {
        name: q.name,
        record_type: TYPE_A,
        class: CLASS_IN,
        time_to_live: SYNTHESIZED_TTL,
        length: 4,
        data: placeholder_address(),
    }
}

/// The response of resolving mode: the questions echoed, one synthesized
/// answer for each.
pub open spec fn resolved_response(q: MessageView) -> MessageView {
    MessageView {
        header: response_header(
            q.header,
            served_r_code(q.header.op_code),
            q.header.qd_count,
            q.questions.len() as u16,
        ),
        questions: q.questions,
        answers: Seq::new(q.questions.len(), |i: int| synthesized_answer(q.questions[i])),
    }
}

fn served_r_code_of(op: OperationCode) -> (r: ResponseCode)
    ensures
        r == served_r_code(op),
{
    match op {
        OperationCode::Query => ResponseCode::NoError,
        _ => ResponseCode::NotImplemented,
    }
}

impl Question {
    /// A question equal to this one.
    pub fn duplicate(&self) -> (r: Question)
        ensures
            r@ == self@,
    {
        Question { name: self.name.clone(), record_type: self.record_type, class: self.class }
    }
}

/// Answers a query in resolving mode.
pub fn get_response(query: &DnsMessage) -> (r: DnsMessage)
    requires
        query.questions@.len() <= 0xFFFF,
    ensures
        r@ == resolved_response(query@),
{
    let ghost qv = query@;
    let mut questions: Vec<Question> = Vec::new();
    let mut answers: Vec<Answer> = Vec::new();
    let mut i: usize = 0;
    while i < query.questions.len()
        invariant
            qv == query@,
            qv.questions.len() <= 0xFFFF,
            i <= qv.questions.len(),
            questions_view(questions@) =~= qv.questions.subrange(0, i as int),
            answers_view(answers@) =~= Seq::new(
                i as nat,
                |k: int| synthesized_answer(qv.questions[k]),
            ),
        decreases qv.questions.len() - i,
    {
        let q = &query.questions[i];
        let a = Answer {
            name: q.name.clone(),
            record_type: TYPE_A,
            class: CLASS_IN,
            time_to_live: SYNTHESIZED_TTL,
            length: 4,
            data: vec![8u8, 8u8, 8u8, 8u8],
        };
        assert(a.data@ =~= placeholder_address());
        let ghost qs_before = questions@;
        let ghost as_before = answers@;
        questions.push(q.duplicate());
        answers.push(a);
        proof {
            assert(qv.questions[i as int] == query.questions@[i as int]@);
            assert(questions_view(questions@) =~= questions_view(qs_before).push(qv.questions[i as int]));
            assert(answers_view(answers@) =~= answers_view(as_before).push(
                synthesized_answer(qv.questions[i as int]),
            ));
            assert(qv.questions.subrange(0, i + 1) =~= qv.questions.subrange(0, i as int).push(
                qv.questions[i as int],
            ));
        }
        i = i + 1;
    }
    assert(qv.questions.subrange(0, i as int) =~= qv.questions);
    let header = Header {
        packet_id: query.header.packet_id,
        qr_ind: QueryResponseIndicator::Response,
        op_code: query.header.op_code,
        is_auth_ans: false,
        is_trunc: false,
        is_rec_desired: query.header.is_rec_desired,
        is_rec_available: false,
        r_code: served_r_code_of(query.header.op_code),
        qd_count: query.header.qd_count,
        an_count: answers.len() as u16,
        ns_count: 0,
        ar_count: 0,
    };
    DnsMessage { header, questions, answers }
}

/// A record count as the header writes it: the length, or the largest
/// 16-bit value when the length does not fit.
pub open spec fn count_of(n: nat) -> u16 {
    if n <= 0xFFFF {
        n as u16
    } else {
        0xFFFF
    }
}

fn count_of_len(n: usize) -> (r: u16)
    ensures
        r == count_of(n as nat),
{
    if n <= 0xFFFF {
        n as u16
    } else {
        0xFFFF
    }
}

/// The query forwarded upstream for one question: the original header with
/// a question count of one and no other records, and that question alone.
pub open spec fn single_query(h: Header, q: QuestionView) -> MessageView {
    MessageView {
        header: Header { qd_count: 1, an_count: 0, ns_count: 0, ar_count: 0, ..h },
        questions: seq![q],
        answers: Seq::empty(),
    }
}

/// Where forwarding of one query stands.
pub struct ForwardingView {
    pub query: MessageView,
    pub next: nat,
    pub questions: Seq<QuestionView>,
    pub answers: Seq<AnswerView>,
    pub failed: bool,
}

/// Forwarding before any question has been sent upstream.
pub open spec fn forwarding_start(query: MessageView) -> ForwardingView {
    ForwardingView {
        query,
        next: 0,
        questions: Seq::empty(),
        answers: Seq::empty(),
        failed: false,
    }
}

/// The next upstream query, while questions remain to be forwarded.
pub open spec fn forwarding_request(s: ForwardingView) -> Option<MessageView> {
    if s.next < s.query.questions.len() {
        Some(single_query(s.query.header, s.query.questions[s.next as int]))
    } else {
        None
    }
}

/// Forwarding after the upstream reply to the pending question: a reply's
/// questions and answers are kept; when there was none, the question is kept
/// without an answer and the response will report a server failure.
pub open spec fn forwarding_after(s: ForwardingView, reply: Option<MessageView>) -> ForwardingView {
    match reply {
        Some(m) => ForwardingView {
            next: s.next + 1,
            questions: s.questions + m.questions,
            answers: s.answers + m.answers,
            ..s
        },
        None => ForwardingView {
            next: s.next + 1,
            questions: s.questions.push(s.query.questions[s.next as int]),
            failed: true,
            ..s
        },
    }
}

/// The response sent back once every question has been forwarded.
pub open spec fn forwarding_response(s: ForwardingView) -> MessageView {
    MessageView {
        header: response_header(
            s.query.header,
            if s.failed {
                ResponseCode::ServerFailure
            } else {
                served_r_code(s.query.header.op_code)
            },
            count_of(s.questions.len()),
            count_of(s.answers.len()),
        ),
        questions: s.questions,
        answers: s.answers,
    }
}

/// The view of an optional message.
pub open spec fn reply_view(reply: Option<DnsMessage>) -> Option<MessageView> {
    match reply {
        Some(m) => Some(m@),
        None => None,
    }
}

/// Forwards the questions of one query upstream, one at a time and in order,
/// and gathers the replies into one response.
pub struct Forwarding {
    query: DnsMessage,
    next: usize,
    questions: Vec<Question>,
    answers: Vec<Answer>,
    failed: bool,
}

impl View for Forwarding {
    type V = ForwardingView;

    closed spec fn view(&self) -> ForwardingView {
        ForwardingView {
            query: self.query@,
            next: self.next as nat,
            questions: questions_view(self.questions@),
            answers: answers_view(self.answers@),
            failed: self.failed,
        }
    }
}

impl Forwarding {
    /// The pending question is within the query, or all have been forwarded.
    pub open spec fn wf(&self) -> bool {
        self@.next <= self@.query.questions.len()
    }

    /// Starts forwarding `query`.
    pub fn new(query: DnsMessage) -> (r: Forwarding)
        ensures
            r.wf(),
            r@ == forwarding_start(query@),
    {
        let r = Forwarding { query, next: 0, questions: Vec::new(), answers: Vec::new(), failed: false };
        assert(r@.questions =~= Seq::<QuestionView>::empty());
        assert(r@.answers =~= Seq::<AnswerView>::empty());
        r
    }

    /// The query to send upstream next, or `None` when every question has
    /// been forwarded and the response is ready.
    pub fn upstream_query(&self) -> (r: Option<DnsMessage>)
        requires
            self.wf(),
        ensures
            reply_view(r) == forwarding_request(self@),
    {
        if self.next < self.query.questions.len() {
            let q = self.query.questions[self.next].duplicate();
            let header = Header { qd_count: 1, an_count: 0, ns_count: 0, ar_count: 0, ..self.query.header };
            let questions = vec![q];
            let m = DnsMessage { header, questions, answers: Vec::new() };
            assert(m@.questions =~= seq![self@.query.questions[self.next as int]]);
            assert(m@.answers =~= Seq::<AnswerView>::empty());
            Some(m)
        } else {
            None
        }
    }

    /// Takes in the upstream reply to the pending question, or `None` when
    /// none could be had.
    pub fn on_reply(&mut self, reply: Option<DnsMessage>)
        requires
            old(self).wf(),
            old(self)@.next < old(self)@.query.questions.len(),
        ensures
            final(self).wf(),
            final(self)@ == forwarding_after(old(self)@, reply_view(reply)),
    {
        assert(self.next < self.query.questions.len());
        match reply {
            Some(m) => {
                let DnsMessage { header: _, questions: mut more_questions, answers: mut more_answers } = m;
                let ghost qs = self.questions@;
                let ghost ans = self.answers@;
                let ghost mq = more_questions@;
                let ghost ma = more_answers@;
                self.questions.append(&mut more_questions);
                self.answers.append(&mut more_answers);
                assert(questions_view(self.questions@) =~= questions_view(qs) + questions_view(mq));
                assert(answers_view(self.answers@) =~= answers_view(ans) + answers_view(ma));
            },
            None => {
                let q = self.query.questions[self.next].duplicate();
                let ghost qs = self.questions@;
                self.questions.push(q);
                self.failed = true;
                assert(questions_view(self.questions@) =~= questions_view(qs).push(q@));
            },
        }
        self.next = self.next + 1;
    }

    /// The response to the original query.
    pub fn finish(self) -> (r: DnsMessage)
        requires
            self.wf(),
            forwarding_request(self@) is None,
        ensures
            r@ == forwarding_response(self@),
    {
        let r_code = if self.failed {
            ResponseCode::ServerFailure
        } else {
            served_r_code_of(self.query.header.op_code)
        };
        let header = Header {
            packet_id: self.query.header.packet_id,
            qr_ind: QueryResponseIndicator::Response,
            op_code: self.query.header.op_code,
            is_auth_ans: false,
            is_trunc: false,
            is_rec_desired: self.query.header.is_rec_desired,
            is_rec_available: false,
            r_code,
            qd_count: count_of_len(self.questions.len()),
            an_count: count_of_len(self.answers.len()),
            ns_count: 0,
            ar_count: 0,
        };
        DnsMessage { header, questions: self.questions, answers: self.answers }
    }
}

/// Forwarding after the replies to the first questions, in order.
pub open spec fn forwarding_run(query: MessageView, replies: Seq<Option<MessageView>>) -> ForwardingView
    decreases replies.len(),
{
    if replies.len() == 0 {
        forwarding_start(query)
    } else {
        forwarding_after(forwarding_run(query, replies.drop_last()), replies.last())
    }
}

/// The questions of the replies one after another; an unanswered question
/// stands for itself.
pub open spec fn gathered_questions(query: MessageView, replies: Seq<Option<MessageView>>) -> Seq<
    QuestionView,
>
    decreases replies.len(),
{
    if replies.len() == 0 {
        Seq::empty()
    } else {
        gathered_questions(query, replies.drop_last()) + match replies.last() {
            Some(m) => m.questions,
            None => seq![query.questions[replies.len() - 1]],
        }
    }
}

/// The answers of the replies one after another.
pub open spec fn gathered_answers(replies: Seq<Option<MessageView>>) -> Seq<AnswerView>
    decreases replies.len(),
{
    if replies.len() == 0 {
        Seq::empty()
    } else {
        gathered_answers(replies.drop_last()) + match replies.last() {
            Some(m) => m.answers,
            None => Seq::empty(),
        }
    }
}

/// Forwarding asks upstream about each question of the query once, in the
/// query's order, and only then responds: under the query's id, with the
/// replies' questions and answers gathered in order, and with a server
/// failure when some question went unanswered.
pub proof fn lemma_forwarding_in_order(query: MessageView, replies: Seq<Option<MessageView>>)
    requires
        replies.len() <= query.questions.len(),
    ensures
        ({
            let s = forwarding_run(query, replies);
            &&& s.query == query
            &&& s.next == replies.len()
            &&& replies.len() < query.questions.len() ==> forwarding_request(s) == Some(
                single_query(query.header, query.questions[replies.len() as int]),
            )
            &&& replies.len() == query.questions.len() ==> forwarding_request(s) is None
            &&& s.questions == gathered_questions(query, replies)
            &&& s.answers == gathered_answers(replies)
            &&& s.failed == (exists|k: int| 0 <= k < replies.len() && (#[trigger] replies[k]) is None)
            &&& forwarding_response(s).header.packet_id == query.header.packet_id
            &&& forwarding_response(s).header.qr_ind == QueryResponseIndicator::Response
            &&& forwarding_response(s).questions == gathered_questions(query, replies)
            &&& forwarding_response(s).answers == gathered_answers(replies)
        }),
    decreases replies.len(),
{
    if replies.len() > 0 {
        let init = replies.drop_last();
        lemma_forwarding_in_order(query, init);
        let s = forwarding_run(query, replies);
        let last = replies.len() - 1;
        assert(forall|k: int| 0 <= k < init.len() ==> init[k] == replies[k]);
        if s.failed {
            if replies.last() is None {
                assert(replies[last] is None);
            } else {
                let k = choose|k: int| 0 <= k < init.len() && (#[trigger] init[k]) is None;
                assert(replies[k] is None);
            }
        } else {
            assert forall|k: int| 0 <= k < replies.len() implies !((#[trigger] replies[k]) is None) by {
                if k < last {
                    assert(init[k] == replies[k]);
                }
            }
        }
    }
}

} // verus!

//! The paper-check request: what the service does next, and what it answers.
use vstd::prelude::*;
use vstd::hash_set::StringHashSet;
use vstd::string::StringExecFns;
use jieba_rs::Jieba;

verus! {

/// A request: the paper's id, its text, and whether to store the paper.
#[derive(Debug, PartialEq, Eq)]
pub struct ReqData {
    pub id: String,
    pub text: String,
    pub write: bool,
}

/// What the service shares among requests: the segmenter and the stop words.
pub struct SharedData {
    pub jieba: Jieba,
    pub stop_words: StringHashSet,
}

/// The HTTP status of a successful check.
pub const STATUS_OK: u16 = 200;
/// The HTTP status of a request for a paper that is already stored.
pub const STATUS_BAD_REQUEST: u16 = 400;
/// The HTTP status of a failure in the database.
pub const STATUS_INTERNAL_SERVER_ERROR: u16 = 500;

/// What happened last while a request was served.
#[derive(Debug, PartialEq, Eq)]
pub enum CheckEvent {
    /// The request came in.
    Received,
    /// The store was asked whether a paper with the request's id exists; the
    /// answer, or the store's error message.
    PaperLookup(Result<bool, String>),
    /// The paper was scored against the stored papers, or scoring failed.
    Scored(Result<(), String>),
    /// The paper was stored, or storing failed with the store's error message.
    PaperStored(Result<(), String>),
    /// The paper's words were counted into the stored feature names, or that
    /// failed with the store's error message.
    NamesCounted(Result<(), String>),
}

/// What the service does next.
#[derive(Debug, PartialEq, Eq)]
pub enum CheckAction {
    /// Ask the store whether a paper with the request's id exists.
    LookUpPaper,
    /// Score the paper against the stored papers: the most similar ones.
    Score,
    /// Store the paper's term-frequency table.
    StorePaper,
    /// Count the paper's words into the stored feature names.
    CountNames,
    /// Answer with `status` and `msg`, and with the similar papers when `with_similarity`.
    Reply { status: u16, msg: String, with_similarity: bool },
}

/// What a [`CheckAction`] is, over plain values.
pub enum CheckDecision {
    LookUpPaper,
    Score,
    StorePaper,
    CountNames,
    Reply { status: u16, msg: Seq<char>, with_similarity: bool },
}

/// The plain value of an action.
pub open spec fn decision_of(a: CheckAction) -> CheckDecision {
    match a {
        CheckAction::LookUpPaper => CheckDecision::LookUpPaper,
        CheckAction::Score => CheckDecision::Score,
        CheckAction::StorePaper => CheckDecision::StorePaper,
        CheckAction::CountNames => CheckDecision::CountNames,
        CheckAction::Reply { status, msg, with_similarity } => CheckDecision::Reply {
            status,
            msg: msg@,
            with_similarity,
        },
    }
}

/// The answer to a store error: its message, with status 500.
pub open spec fn failure(e: String) -> CheckDecision {
    CheckDecision::Reply { status: STATUS_INTERNAL_SERVER_ERROR, msg: e@, with_similarity: false }
}

/// The message for a paper that is already stored.
pub open spec fn duplicate_message(id: Seq<char>) -> Seq<char> {
    "论文'"@ + id + "'已存在"@
}

/// The message of a successful check: stored, or only queried.
pub open spec fn success_message(write: bool) -> Seq<char> {
    if write {
        "加入成功"@
    } else {
        "查询成功"@
    }
}

/// What the service does after `event` while serving a request for the paper
/// `req_id` that stores the paper when `write`: a write first asks whether the
/// id is taken and is refused if so; the paper is scored, and only then, on a
/// write, stored and its words counted; any store error is answered with its
/// message.
pub open spec fn next_decision(req_id: Seq<char>, write: bool, event: CheckEvent) -> CheckDecision {
    match event {
        CheckEvent::Received => if write {
            CheckDecision::LookUpPaper
        } else {
            CheckDecision::Score
        },
        CheckEvent::PaperLookup(Ok(true)) => CheckDecision::Reply {
            status: STATUS_BAD_REQUEST,
            msg: duplicate_message(req_id),
            with_similarity: false,
        },
        CheckEvent::PaperLookup(Ok(false)) => CheckDecision::Score,
        CheckEvent::PaperLookup(Err(e)) => failure(e),
        CheckEvent::Scored(Ok(())) => if write {
            CheckDecision::StorePaper
        } else {
            CheckDecision::Reply { status: STATUS_OK, msg: success_message(false), with_similarity: true }
        },
        CheckEvent::Scored(Err(e)) => failure(e),
        CheckEvent::PaperStored(Ok(())) => CheckDecision::CountNames,
        CheckEvent::PaperStored(Err(e)) => failure(e),
        CheckEvent::NamesCounted(Ok(())) => CheckDecision::Reply {
            status: STATUS_OK,
            msg: success_message(true),
            with_similarity: true,
        },
        CheckEvent::NamesCounted(Err(e)) => failure(e),
    }
}

/// A request whose id is already stored is refused and stores nothing.
pub proof fn lemma_duplicate_refused(req_id: Seq<char>)
    ensures
        next_decision(req_id, true, CheckEvent::PaperLookup(Ok(true))) == (CheckDecision::Reply {
            status: STATUS_BAD_REQUEST,
            msg: duplicate_message(req_id),
            with_similarity: false,
        }),
{
}

/// What each answer says: a taken id `论文'<id>'已存在` with 400, a finished
/// query `查询成功` and a finished write `加入成功` with 200 and the similar
/// papers, and an error its own message with 500.
pub proof fn lemma_reply_messages(req_id: Seq<char>, write: bool, e: String)
    ensures
        next_decision(req_id, write, CheckEvent::PaperLookup(Ok(true))) == (CheckDecision::Reply {
            status: 400,
            msg: "论文'"@ + req_id + "'已存在"@,
            with_similarity: false,
        }),
        next_decision(req_id, false, CheckEvent::Scored(Ok(()))) == (CheckDecision::Reply {
            status: 200,
            msg: "查询成功"@,
            with_similarity: true,
        }),
        next_decision(req_id, write, CheckEvent::NamesCounted(Ok(()))) == (CheckDecision::Reply {
            status: 200,
            msg: "加入成功"@,
            with_similarity: true,
        }),
        next_decision(req_id, write, CheckEvent::PaperLookup(Err(e))) == (CheckDecision::Reply {
            status: 500,
            msg: e@,
            with_similarity: false,
        }),
        next_decision(req_id, write, CheckEvent::Scored(Err(e))) == (CheckDecision::Reply {
            status: 500,
            msg: e@,
            with_similarity: false,
        }),
        next_decision(req_id, write, CheckEvent::PaperStored(Err(e))) == (CheckDecision::Reply {
            status: 500,
            msg: e@,
            with_similarity: false,
        }),
        next_decision(req_id, write, CheckEvent::NamesCounted(Err(e))) == (CheckDecision::Reply {
            status: 500,
            msg: e@,
            with_similarity: false,
        }),
{
}

/// The paper is stored only on a write request, and only right after it was
/// scored; its words are counted only right after it was stored.
pub proof fn lemma_store_after_score(req_id: Seq<char>, write: bool, event: CheckEvent)
    ensures
        next_decision(req_id, write, event) == CheckDecision::StorePaper ==> write && (event matches CheckEvent::Scored(Ok(_))),
        next_decision(req_id, write, event) == CheckDecision::CountNames ==> (event matches CheckEvent::PaperStored(Ok(_))),
{
}

/// The paper is scored only when the request came in without asking to store
/// it, or once the store said that its id is free.
pub proof fn lemma_score_when_free(req_id: Seq<char>, write: bool, event: CheckEvent)
    ensures
        next_decision(req_id, write, event) == CheckDecision::Score ==> (!write && event
            == CheckEvent::Received) || event == CheckEvent::PaperLookup(Ok(false)),
{
}

/// A request that stores its paper is asked about first; one that does not
/// goes straight to scoring.
pub proof fn lemma_first_step(req_id: Seq<char>, write: bool)
    ensures
        next_decision(req_id, write, CheckEvent::Received) == if write {
            CheckDecision::LookUpPaper
        } else {
            CheckDecision::Score
        },
{
}

/// The message for a paper that is already stored: `论文'<id>'已存在`.
pub fn duplicate_paper_message(id: &str) -> (r: String)
    ensures
        r@ == duplicate_message(id@),
{
    let mut m = "论文'".to_owned();
    m.append(id);
    m.append("'已存在");
    m
}

/// Decides what the service does after `event` while serving `req`: a request
/// that stores its paper first asks whether the id is taken, and is refused if
/// so; the paper is scored, and then, on a write, stored and its words
/// counted; a store error is answered with its message; the answer of a
/// finished request carries the similar papers.
pub fn check_step(req: &ReqData, event: CheckEvent) -> (r: CheckAction)
    ensures
        decision_of(r) == next_decision(req.id@, req.write, event),
{
    match event {
        CheckEvent::Received => if req.write {
            CheckAction::LookUpPaper
        } else {
            CheckAction::Score
        },
        CheckEvent::PaperLookup(Ok(true)) => CheckAction::Reply {
            status: STATUS_BAD_REQUEST,
            msg: duplicate_paper_message(req.id.as_str()),
            with_similarity: false,
        },
        CheckEvent::PaperLookup(Ok(false)) => CheckAction::Score,
        CheckEvent::Scored(Ok(())) => if req.write {
            CheckAction::StorePaper
        } else {
            CheckAction::Reply { status: STATUS_OK, msg: "查询成功".to_owned(), with_similarity: true }
        },
        CheckEvent::PaperStored(Ok(())) => CheckAction::CountNames,
        CheckEvent::NamesCounted(Ok(())) => CheckAction::Reply {
            status: STATUS_OK,
            msg: "加入成功".to_owned(),
            with_similarity: true,
        },
        CheckEvent::PaperLookup(Err(e)) | CheckEvent::Scored(Err(e)) | CheckEvent::PaperStored(
            Err(e),
        ) | CheckEvent::NamesCounted(Err(e)) => CheckAction::Reply {
            status: STATUS_INTERNAL_SERVER_ERROR,
            msg: e,
            with_similarity: false,
        },
    }
}

/// The answer to a request for a path that does not exist: `'<uri>'不存在`.
pub fn not_found_message(uri: &str) -> (r: String)
    ensures
        r@ == "'"@ + uri@ + "'不存在"@,
{
    let mut m = "'".to_owned();
    m.append(uri);
    m.append("'不存在");
    m
}

/// The answer to a malformed request.
pub fn bad_request_message() -> (r: String)
    ensures
        r@ == "调用有误"@,
{
    "调用有误".to_owned()
}

} // verus!

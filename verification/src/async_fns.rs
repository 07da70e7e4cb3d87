//! The checksum verification queue: requests are queued one by one, answered
//! as a batch, and judged in the order in which they were queued.

use crate::debversion::{is_digit, is_letter, text_bytes};
use crate::packages::{Database, Packages};
use vstd::prelude::*;
use vstd::string::StringExecFns;

verus! {

broadcast use vstd::std_specs::hash::group_hash_axioms;

/// What is remembered of a queued request: the package, its name and the
/// version asked about. A request's place in the queue is its key.
#[derive(Debug, Clone, PartialEq, Eq)]
pub struct PendingRequest {
    pub package_num: i32,
    pub package_name: String,
    pub version: String,
}

/// What a queued request is, as plain values.
pub struct RequestModel {
    pub package: i32,
    pub name: Seq<char>,
    pub version: Seq<char>,
}

impl DeepView for PendingRequest {
    type V = RequestModel;

    open spec fn deep_view(&self) -> RequestModel {
        RequestModel { package: self.package_num, name: self.package_name@, version: self.version@ }
    }
}

/// The state of the verification queue: the server asked and the requests
/// of the current batch.
#[derive(Debug)]
pub struct AsyncState {
    pub(crate) server: String,
    pub(crate) pending: Vec<PendingRequest>,
}

/// The server that is asked where no other was set.
pub open spec fn default_server() -> Seq<char> {
    "ece459.patricklam.ca:4590"@
}

impl AsyncState {
    /// The server that requests go to.
    pub closed spec fn server(&self) -> Seq<char> {
        self.server@
    }

    /// The requests of the current batch, in the order in which they were
    /// queued.
    pub closed spec fn pending(&self) -> Seq<RequestModel> {
        self.pending.deep_view()
    }

    /// An empty queue that asks the default server.
    pub fn new() -> (s: AsyncState)
        ensures
            s.server() == default_server(),
            s.pending() == Seq::<RequestModel>::empty(),
    {
        let s = AsyncState { server: "ece459.patricklam.ca:4590".to_owned(), pending: Vec::new() };
        assert(s.pending() =~= Seq::<RequestModel>::empty());
        s
    }
}

/// A byte that stands for itself in a URL: a letter, a digit, `-`, `.`, `_`
/// or `~`.
pub open spec fn is_unreserved(b: u8) -> bool {
    is_digit(b) || is_letter(b) || b == 45 || b == 46 || b == 95 || b == 126
}

/// The hexadecimal digit of a number below 16, in upper case.
pub open spec fn hex_digit_upper(n: u8) -> char {
    if n < 10 {
        (48 + n) as char
    } else {
        (55 + n) as char
    }
}

/// A byte as it stands in a URL: itself, or `%` and its two hexadecimal
/// digits.
pub open spec fn percent_encode_byte(b: u8) -> Seq<char> {
    if is_unreserved(b) {
        seq![b as char]
    } else {
        seq!['%', hex_digit_upper(b / 16), hex_digit_upper(b % 16)]
    }
}

/// Bytes as they stand in a URL, one after the other.
pub open spec fn percent_encode(bytes: Seq<u8>) -> Seq<char>
    decreases bytes.len(),
{
    if bytes.len() == 0 {
        Seq::empty()
    } else {
        percent_encode(bytes.drop_last()) + percent_encode_byte(bytes.last())
    }
}

/// The URL that asks `server` for the checksum of a version of a package.
pub open spec fn request_url(server: Seq<char>, pkg: Seq<char>, version: Seq<char>) -> Seq<char> {
    "http://"@ + server + "/rest/v1/checksums/"@ + pkg + "/"@ + percent_encode(
        text_bytes(version),
    )
}

/// Calls `urlencoding::encode`. The contract says what its source shows: the
/// text's bytes are walked in order, an unreserved byte is kept, and any
/// other byte becomes `%` and its two upper-case hexadecimal digits.
#[verifier::external_body]
fn url_encode(text: &str) -> (r: String)
    ensures
        r@ == percent_encode(text_bytes(text@)),
{
    urlencoding::encode(text).into_owned()
}

/// What came back for one request: the status of the answer and its body.
#[derive(Debug, Clone, PartialEq, Eq)]
pub struct TransferResult {
    pub status: u32,
    pub body: String,
}

/// How one request ended.
#[derive(Debug, Clone, PartialEq, Eq)]
pub enum VerifyOutcome {
    /// The server answered; `matches` says whether its checksum is the one
    /// recorded here.
    Verified { package: String, matches: bool },
    /// The server refused or failed with `status`.
    Failed { package: String, version: String, status: u32 },
}

/// How one request ended, as plain values.
pub enum OutcomeModel {
    Verified { package: Seq<char>, matches: bool },
    Failed { package: Seq<char>, version: Seq<char>, status: u32 },
}

impl DeepView for VerifyOutcome {
    type V = OutcomeModel;

    open spec fn deep_view(&self) -> OutcomeModel {
        match self {
            VerifyOutcome::Verified { package, matches } => OutcomeModel::Verified {
                package: package@,
                matches: *matches,
            },
            VerifyOutcome::Failed { package, version, status } => OutcomeModel::Failed {
                package: package@,
                version: version@,
                status: *status,
            },
        }
    }
}

/// A request with status 200 can be judged only where a checksum is
/// recorded of its package.
pub open spec fn can_judge(db: Database, request: RequestModel, status: u32) -> bool {
    status == 200 ==> db.checksums.contains_key(request.package)
}

/// How a request ends: with status 200 the body is held against the recorded
/// checksum; any other status is a failure that names package, version and
/// status.
pub open spec fn judged(db: Database, request: RequestModel, status: u32, body: Seq<char>) ->
    OutcomeModel {
    if status == 200 {
        OutcomeModel::Verified {
            package: request.name,
            matches: db.checksums[request.package] == body,
        }
    } else {
        OutcomeModel::Failed { package: request.name, version: request.version, status: status }
    }
}

/// The answers can be judged: there is one for each request of the batch,
/// and each request answered with status 200 has a recorded checksum.
pub open spec fn can_judge_all(
    db: Database,
    pending: Seq<RequestModel>,
    responses: Seq<TransferResult>,
) -> bool {
    &&& responses.len() == pending.len()
    &&& forall|i: int|
        0 <= i < pending.len() ==> can_judge(db, #[trigger] pending[i], responses[i].status)
}

impl Packages {
    /// The server that requests go to.
    pub fn get_server(&self) -> (r: &str)
        ensures
            r@ == self.queue().server(),
    {
        self.async_state.server.as_str()
    }

    /// How many requests wait in the current batch. The next request's key
    /// is this number.
    pub fn pending_count(&self) -> (n: usize)
        ensures
            n == self.queue().pending().len(),
    {
        self.async_state.pending.len()
    }

    /// Sets the server that later requests go to.
    pub fn set_server(&mut self, new_server: &str)
        ensures
            final(self).queue().server() == new_server@,
            final(self).queue().pending() == old(self).queue().pending(),
            final(self)@ == old(self)@,
    {
        self.async_state.server = new_server.to_owned();
    }

    /// Queues a request for the checksum of `version` of the package `pkg`,
    /// and returns its URL. A name not seen before gets the next package
    /// number. Nothing is sent yet.
    pub fn enq_verify_with_version(&mut self, pkg: &str, version: &str) -> (url: String)
        requires
            old(self).wf(),
            old(self)@.has_name(pkg@) || old(self)@.names.len() < i32::MAX,
        ensures
            final(self).wf(),
            url@ == request_url(old(self).queue().server(), pkg@, version@),
            final(self).queue().server() == old(self).queue().server(),
            final(self).queue().pending() == old(self).queue().pending().push(
                RequestModel { package: final(self)@.id_of(pkg@), name: pkg@, version: version@ },
            ),
            old(self)@.has_name(pkg@) ==> final(self)@ == old(self)@,
            !old(self)@.has_name(pkg@) ==> final(self)@ == (Database {
                names: old(self)@.names.push(pkg@),
                ..old(self)@
            }),
    {
        let encoded = url_encode(version);
        let mut url = "http://".to_owned();
        url.append(self.async_state.server.as_str());
        url.append("/rest/v1/checksums/");
        url.append(pkg);
        url.append("/");
        url.append(encoded.as_str());
        assert(url@ =~= request_url(old(self).queue().server(), pkg@, version@));
        let package_num = self.get_package_num_inserting(pkg);
        let ghost before = self.async_state.pending.deep_view();
        self.async_state.pending.push(
            PendingRequest {
                package_num,
                package_name: pkg.to_owned(),
                version: version.to_owned(),
            },
        );
        assert(self.async_state.pending.deep_view() =~= before.push(
            RequestModel { package: package_num, name: pkg@, version: version@ },
        ));
        url
    }

    /// Queues a request for the checksum of the available version of the
    /// package `pkg`, and returns its URL. Where no available version of
    /// such a package is known, nothing is queued and `None` returned.
    pub fn enq_verify(&mut self, pkg: &str) -> (r: Option<String>)
        requires
            old(self).wf(),
        ensures
            final(self).wf(),
            final(self)@ == old(self)@,
            final(self).queue().server() == old(self).queue().server(),
            r is Some <==> old(self)@.has_name(pkg@) && old(self)@.available.contains_key(
                old(self)@.id_of(pkg@),
            ),
            match r {
                Some(url) => {
                    let id = old(self)@.id_of(pkg@);
                    let version = old(self)@.available[id].text;
                    &&& url@ == request_url(old(self).queue().server(), pkg@, version)
                    &&& final(self).queue().pending() == old(self).queue().pending().push(
                        RequestModel { package: id, name: pkg@, version: version },
                    )
                },
                None => final(self).queue().pending() == old(self).queue().pending(),
            },
    {
        let version = match self.get_available_debver(pkg) {
            None => {
                return None;
            },
            Some(v) => v.to_string(),
        };
        Some(self.enq_verify_with_version(pkg, version.as_str()))
    }

    /// Whether `execute` may be called with these answers: there is one for
    /// each request of the batch, and each request answered with status 200
    /// has a recorded checksum.
    pub fn can_execute(&self, responses: &Vec<TransferResult>) -> (r: bool)
        ensures
            r == can_judge_all(self@, self.queue().pending(), responses@),
    {
        if responses.len() != self.async_state.pending.len() {
            return false;
        }
        let ghost pending = self.queue().pending();
        let mut i: usize = 0;
        while i < responses.len()
            invariant
                i <= responses.len(),
                responses.len() == self.async_state.pending.len(),
                pending == self.async_state.pending.deep_view(),
                forall|k: int|
                    0 <= k < i ==> can_judge(self@, #[trigger] pending[k], responses@[k].status),
            decreases responses.len() - i,
        {
            if responses[i].status == 200 && !self.md5sums.contains_key(
                &self.async_state.pending[i].package_num,
            ) {
                assert(!can_judge(self@, pending[i as int], responses@[i as int].status));
                return false;
            }
            i += 1;
        }
        true
    }

    /// Judges one answer: with status 200 the body is held against the
    /// checksum recorded of the package; any other status is a failure.
    pub fn judge(&self, request: &PendingRequest, response: &TransferResult) -> (r: VerifyOutcome)
        requires
            can_judge(self@, request.deep_view(), response.status),
        ensures
            r.deep_view() == judged(self@, request.deep_view(), response.status, response.body@),
    {
        if response.status == 200 {
            let matches = match self.md5sums.get(&request.package_num) {
                Some(local) => *local == response.body,
                None => false,
            };
            VerifyOutcome::Verified { package: request.package_name.clone(), matches }
        } else {
            VerifyOutcome::Failed {
                package: request.package_name.clone(),
                version: request.version.clone(),
                status: response.status,
            }
        }
    }

    /// Ends the batch: `responses` holds what came back for each request, in
    /// the order in which the requests were queued. Each request is judged
    /// against its answer, in that order, and the queue is empty afterwards,
    /// so that the next batch starts at key 0.
    pub fn execute(&mut self, responses: &Vec<TransferResult>) -> (r: Vec<VerifyOutcome>)
        requires
            can_judge_all(old(self)@, old(self).queue().pending(), responses@),
        ensures
            final(self)@ == old(self)@,
            final(self).queue().server() == old(self).queue().server(),
            final(self).queue().pending().len() == 0,
            r.len() == responses.len(),
            forall|i: int|
                0 <= i < r.len() ==> (#[trigger] r[i]).deep_view() == judged(
                    old(self)@,
                    old(self).queue().pending()[i],
                    responses[i].status,
                    responses[i].body@,
                ),
    {
        let ghost pending = self.queue().pending();
        let mut outcomes: Vec<VerifyOutcome> = Vec::new();
        let mut easy_key: usize = 0;
        while easy_key < self.async_state.pending.len()
            invariant
                self == old(self),
                easy_key <= self.async_state.pending.len(),
                pending == self.async_state.pending.deep_view(),
                can_judge_all(self@, pending, responses@),
                outcomes.len() == easy_key,
                forall|i: int|
                    0 <= i < easy_key ==> (#[trigger] outcomes[i]).deep_view() == judged(
                        self@,
                        pending[i],
                        responses[i].status,
                        responses[i].body@,
                    ),
            decreases self.async_state.pending.len() - easy_key,
        {
            assert(can_judge(self@, pending[easy_key as int], responses[easy_key as int].status));
            let outcome = self.judge(&self.async_state.pending[easy_key], &responses[easy_key]);
            outcomes.push(outcome);
            easy_key += 1;
        }
        self.async_state.pending.clear();
        assert(self.async_state.pending.deep_view() =~= Seq::<RequestModel>::empty());
        outcomes
    }
}

} // verus!

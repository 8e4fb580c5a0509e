use crate::version::all_digits;
use vstd::prelude::*;
use vstd::string::StringExecFns;

verus! {

/// The contents of a list of tag names.
pub open spec fn names_view(v: Seq<String>) -> Seq<Seq<char>> {
    v.map_values(|s: String| s@)
}

/// One page of the tag listing, as decoded from a successful response body:
/// the tag names in the order the page lists them, and the continuation URL
/// of the next page, absent on the last page.
pub struct Page {
    pub next: Option<String>,
    pub names: Vec<String>,
}

/// The mathematical value of a `Page`.
#[verifier::ext_equal]
pub ghost struct PageView {
    pub next: Option<Seq<char>>,
    pub names: Seq<Seq<char>>,
}

impl View for Page {
    type V = PageView;

    open spec fn view(&self) -> PageView {
        PageView {
            next: match self.next {
                Some(u) => Some(u@),
                None => None,
            },
            names: names_view(self.names@),
        }
    }
}

/// A response body as the transport decoded it: a page, or bytes that were
/// not a page (with the decoder's message).
pub enum PageBody {
    Page(Page),
    Invalid(String),
}

/// The mathematical value of a `PageBody`.
pub ghost enum PageBodyView {
    Page(PageView),
    Invalid(Seq<char>),
}

impl View for PageBody {
    type V = PageBodyView;

    open spec fn view(&self) -> PageBodyView {
        match self {
            PageBody::Page(p) => PageBodyView::Page(p@),
            PageBody::Invalid(m) => PageBodyView::Invalid(m@),
        }
    }
}

/// Why enumeration stopped. Every variant is terminal for the run.
pub enum FetchError {
    /// The request itself failed; the transport's message.
    Transport(String),
    /// A non-success status other than throttling.
    Status(u16),
    /// A throttling response without the retry header.
    MissingRetryHeader,
    /// A throttling response whose retry header is not an epoch-seconds
    /// integer; the raw header bytes.
    BadRetryHeader(Vec<u8>),
    /// A success status whose body was not a page; the decoder's message.
    MalformedBody(String),
}

/// The mathematical value of a `FetchError`.
pub ghost enum FetchErrorView {
    Transport(Seq<char>),
    Status(u16),
    MissingRetryHeader,
    BadRetryHeader(Seq<u8>),
    MalformedBody(Seq<char>),
}

impl View for FetchError {
    type V = FetchErrorView;

    open spec fn view(&self) -> FetchErrorView {
        match self {
            FetchError::Transport(m) => FetchErrorView::Transport(m@),
            FetchError::Status(s) => FetchErrorView::Status(*s),
            FetchError::MissingRetryHeader => FetchErrorView::MissingRetryHeader,
            FetchError::BadRetryHeader(h) => FetchErrorView::BadRetryHeader(h@),
            FetchError::MalformedBody(m) => FetchErrorView::MalformedBody(m@),
        }
    }
}

/// What the driving loop must do after asking for the next tag.
pub enum Step {
    /// A tag name, handed out of the buffer.
    Yield(String),
    /// Perform a blocking GET of this URL and feed the response back.
    Fetch(String),
    /// The stream is exhausted; not an error.
    Done,
}

/// What the driving loop must do after feeding a response in.
pub enum FetchOutcome {
    /// Throttled: sleep this many seconds, then repeat the same request.
    Retry { wait_seconds: u64 },
    /// Terminal failure; the run aborts.
    Fatal(FetchError),
    /// The page was accepted; ask for the next tag.
    Ready,
}

/// The mathematical value of a `FetchOutcome`.
pub ghost enum OutcomeView {
    Retry { wait_seconds: int },
    Fatal(FetchErrorView),
    Ready,
}

impl View for FetchOutcome {
    type V = OutcomeView;

    open spec fn view(&self) -> OutcomeView {
        match self {
            FetchOutcome::Retry { wait_seconds } => OutcomeView::Retry {
                wait_seconds: *wait_seconds as int,
            },
            FetchOutcome::Fatal(e) => OutcomeView::Fatal(e@),
            FetchOutcome::Ready => OutcomeView::Ready,
        }
    }
}

/// The state of the source: the URL still to be fetched (if any), the tag
/// names of the last page not yet handed out, and whether a request is in
/// the caller's hands awaiting its response.
#[verifier::ext_equal]
pub ghost struct SourceView {
    pub next: Option<Seq<char>>,
    pub buffer: Seq<Seq<char>>,
    pub in_flight: bool,
}

/// While a request is in flight nothing is buffered and no URL is pending:
/// the caller holds the URL.
pub open spec fn source_wf(s: SourceView) -> bool {
    s.in_flight ==> s.buffer.len() == 0 && s.next is None
}

/// What one pull does.
pub ghost enum PullView {
    Yield { name: Seq<char>, post: SourceView },
    Fetch { url: Seq<char>, post: SourceView },
    Done,
}

/// Pull transition: hand out the front of the buffer; with an empty buffer,
/// hand the pending URL to the caller to fetch; with neither, the stream is
/// over.
pub open spec fn source_pull(s: SourceView) -> PullView {
    if s.buffer.len() > 0 {
        PullView::Yield {
            name: s.buffer[0],
            post: SourceView { next: s.next, buffer: s.buffer.drop_first(), in_flight: s.in_flight },
        }
    } else {
        match s.next {
            Some(u) => PullView::Fetch {
                url: u,
                post: SourceView { next: None, buffer: s.buffer, in_flight: true },
            },
            None => PullView::Done,
        }
    }
}

/// The state after a page is accepted: its names fill the buffer and its
/// continuation becomes the pending URL.
pub open spec fn filled(p: PageView) -> SourceView {
    SourceView { next: p.next, buffer: p.names, in_flight: false }
}

/// The state after a terminal failure: nothing pending, nothing buffered.
pub open spec fn halted(s: SourceView) -> SourceView {
    SourceView { next: None, buffer: s.buffer, in_flight: false }
}

/// This status is the server's throttling signal.
pub open spec fn throttling_status(status: u16) -> bool {
    status == 429
}

/// Any client or server error status, other than throttling, is fatal.
pub open spec fn fatal_status(status: u16) -> bool {
    400 <= status < 600 && status != 429
}

/// Seconds to wait before retrying: the time left until the server's retry
/// timestamp, and none at all if that time has already passed.
pub open spec fn retry_wait(ts: int, now: int) -> int {
    if ts > now {
        ts - now
    } else {
        0
    }
}

/// A response transition's result: the state after it and the outcome.
pub ghost struct FeedView {
    pub post: SourceView,
    pub outcome: OutcomeView,
}

/// Response transition. Throttling with a readable retry header leaves the
/// state as it is and asks for a timed retry; throttling without one, an
/// unreadable header, a fatal status and an undecodable body all halt the
/// source; an accepted page fills it.
pub open spec fn source_feed(
    s: SourceView,
    status: u16,
    retry_after: Option<Seq<u8>>,
    body: PageBodyView,
    now: int,
) -> FeedView {
    if throttling_status(status) {
        match retry_after {
            None => FeedView {
                post: halted(s),
                outcome: OutcomeView::Fatal(FetchErrorView::MissingRetryHeader),
            },
            Some(h) => match parse_epoch_spec(h) {
                Some(ts) => FeedView {
                    post: s,
                    outcome: OutcomeView::Retry { wait_seconds: retry_wait(ts, now) },
                },
                None => FeedView {
                    post: halted(s),
                    outcome: OutcomeView::Fatal(FetchErrorView::BadRetryHeader(h)),
                },
            },
        }
    } else if fatal_status(status) {
        FeedView { post: halted(s), outcome: OutcomeView::Fatal(FetchErrorView::Status(status)) }
    } else {
        match body {
            PageBodyView::Page(p) => FeedView { post: filled(p), outcome: OutcomeView::Ready },
            PageBodyView::Invalid(m) => FeedView {
                post: halted(s),
                outcome: OutcomeView::Fatal(FetchErrorView::MalformedBody(m)),
            },
        }
    }
}

/// The value of a run of ASCII digits, most significant first.
pub open spec fn digits_val(s: Seq<u8>) -> int
    decreases s.len(),
{
    if s.len() == 0 {
        0
    } else {
        digits_val(s.drop_last()) * 10 + ((s.last() as int) - 48)
    }
}

/// A nonempty run of ASCII digits.
pub open spec fn is_digit_run(s: Seq<u8>) -> bool {
    s.len() > 0 && all_digits(s)
}

/// What the retry header's bytes mean: the epoch-seconds timestamp they
/// spell as an optionally signed decimal integer fitting a signed 64-bit
/// count, and nothing otherwise.
pub open spec fn parse_epoch_spec(s: Seq<u8>) -> Option<int> {
    if s.len() > 0 && s[0] == 45u8 {
        if is_digit_run(s.drop_first()) && digits_val(s.drop_first()) <= 0x8000_0000_0000_0000 {
            Some(-digits_val(s.drop_first()))
        } else {
            None
        }
    } else if s.len() > 0 && s[0] == 43u8 {
        if is_digit_run(s.drop_first()) && digits_val(s.drop_first()) <= i64::MAX {
            Some(digits_val(s.drop_first()))
        } else {
            None
        }
    } else if is_digit_run(s) && digits_val(s) <= i64::MAX {
        Some(digits_val(s))
    } else {
        None
    }
}

/// The value of a digit run is never negative.
proof fn lemma_digits_val_nonneg(s: Seq<u8>)
    requires
        all_digits(s),
    ensures
        digits_val(s) >= 0,
    decreases s.len(),
{
    if s.len() > 0 {
        assert(forall|j: int| 0 <= j < s.drop_last().len() ==> s.drop_last()[j] == s[j]);
        lemma_digits_val_nonneg(s.drop_last());
    }
}

/// A prefix of a digit run is worth no more than the whole run.
proof fn lemma_digits_val_mono(s: Seq<u8>, i: int)
    requires
        all_digits(s),
        0 <= i <= s.len(),
    ensures
        digits_val(s.take(i)) <= digits_val(s),
    decreases s.len() - i,
{
    if i < s.len() {
        lemma_digits_val_mono(s, i + 1);
        assert(s.take(i + 1).drop_last() =~= s.take(i));
        lemma_digits_val_nonneg(s.take(i));
        assert(digits_val(s.take(i + 1)) == digits_val(s.take(i)) * 10 + ((s[i] as int) - 48));
    } else {
        assert(s.take(i) =~= s);
    }
}

/// Reads the retry header's bytes as an epoch-seconds timestamp: exactly
/// `parse_epoch_spec` of them.
fn parse_epoch(h: &Vec<u8>) -> (r: Option<i64>)
    ensures
        match r {
            Some(v) => parse_epoch_spec(h@) == Some(v as int),
            None => parse_epoch_spec(h@) is None,
        },
{
    let mut start: usize = 0;
    let mut negative: bool = false;
    if h.len() > 0 && h[0] == 45u8 {
        start = 1;
        negative = true;
    } else if h.len() > 0 && h[0] == 43u8 {
        start = 1;
    }
    let ghost d = h@.skip(start as int);
    proof {
        if start == 1 {
            assert(d =~= h@.drop_first());
        } else {
            assert(d =~= h@);
        }
    }
    if start == h.len() {
        return None;
    }
    let mut acc: u128 = 0;
    let mut i: usize = start;
    while i < h.len()
        invariant
            start <= i <= h.len(),
            d == h@.skip(start as int),
            start < h.len(),
            start == 0 || start == 1,
            (start == 1) <==> (h@.len() > 0 && (h@[0] == 45u8 || h@[0] == 43u8)),
            negative <==> (h@.len() > 0 && h@[0] == 45u8),
            all_digits(d.take(i - start)),
            acc == digits_val(d.take(i - start)),
            acc <= 0x8000_0000_0000_0000u128,
        decreases h.len() - i,
    {
        let b = h[i];
        if b < 48u8 || b > 57u8 {
            proof {
                if start == 1 {
                    assert(h@.skip(1) =~= h@.drop_first());
                } else {
                    assert(h@.skip(0) =~= h@);
                }
                assert(d[i - start] == h@[i as int]);
                assert(!all_digits(d));
            }
            return None;
        }
        proof {
            assert(d.take(i - start + 1).drop_last() =~= d.take(i - start));
            assert(d.take(i - start + 1).last() == d[i - start]);
            assert(d[i - start] == h@[i as int]);
            lemma_digits_val_nonneg(d.take(i - start));
            assert(digits_val(d.take(i - start + 1)) == digits_val(d.take(i - start)) * 10 + ((d[i
                - start] as int) - 48));
        }
        acc = acc * 10 + ((b - 48u8) as u128);
        i = i + 1;
        if acc > 0x8000_0000_0000_0000u128 {
            proof {
                if start == 1 {
                    assert(h@.skip(1) =~= h@.drop_first());
                } else {
                    assert(h@.skip(0) =~= h@);
                }
                assert(acc == digits_val(d.take(i - start)));
                if all_digits(d) {
                    lemma_digits_val_mono(d, i - start);
                    assert(digits_val(d) > 0x8000_0000_0000_0000);
                } else {
                    assert(!is_digit_run(d));
                }
                assert(parse_epoch_spec(h@) is None);
            }
            return None;
        }
    }
    proof {
        if start == 1 {
            assert(h@.skip(1) =~= h@.drop_first());
        } else {
            assert(h@.skip(0) =~= h@);
        }
        assert(d.take(h.len() - start) =~= d);
        assert(is_digit_run(d));
    }
    if negative {
        let v: i64 = (-(acc as i128)) as i64;
        Some(v)
    } else {
        if acc > 0x7fff_ffff_ffff_ffffu128 {
            return None;
        }
        Some(acc as i64)
    }
}

/// The option's bytes, if any.
pub open spec fn header_view(h: Option<Vec<u8>>) -> Option<Seq<u8>> {
    match h {
        Some(v) => Some(v@),
        None => None,
    }
}

/// The first page's URL for a namespace and repository on a host.
pub open spec fn first_page_url(host: Seq<char>, namespace: Seq<char>, repo: Seq<char>) -> Seq<
    char,
> {
    "https://"@ + host + "/v2/namespaces/"@ + namespace + "/repositories/"@ + repo
        + "/tags?page_size=100"@
}

/// A stateful, resumable producer of tag names: it hands out the buffered
/// names of the last fetched page one at a time, and when the buffer runs dry
/// it asks its caller to fetch the pending continuation URL and feed the
/// response back in.
pub struct PaginatedTagSource {
    next: Option<String>,
    buffer: Vec<String>,
    in_flight: bool,
}

impl View for PaginatedTagSource {
    type V = SourceView;

    closed spec fn view(&self) -> SourceView {
        SourceView {
            next: match self.next {
                Some(u) => Some(u@),
                None => None,
            },
            buffer: names_view(self.buffer@),
            in_flight: self.in_flight,
        }
    }
}

impl PaginatedTagSource {
    /// A fresh source aimed at one repository's tag listing: the first page's
    /// URL is pending, nothing is buffered, nothing is in flight.
    pub fn new(host: &str, namespace: &str, repo: &str) -> (r: Self)
        ensures
            r@.next == Some(first_page_url(host@, namespace@, repo@)),
            r@.buffer == Seq::<Seq<char>>::empty(),
            !r@.in_flight,
            source_wf(r@),
    {
        let mut url = String::new();
        url.append("https://");
        url.append(host);
        url.append("/v2/namespaces/");
        url.append(namespace);
        url.append("/repositories/");
        url.append(repo);
        url.append("/tags?page_size=100");
        let r = PaginatedTagSource { next: Some(url), buffer: Vec::new(), in_flight: false };
        proof {
            assert(r@.buffer =~= Seq::<Seq<char>>::empty());
            assert(url@ =~= first_page_url(host@, namespace@, repo@));
        }
        r
    }

    /// One pull: exactly the `source_pull` transition. A buffered name comes
    /// straight out; otherwise the pending URL is handed over to fetch (the
    /// response must come back through `on_response` or
    /// `on_transport_failure`); otherwise the stream is over.
    pub fn next_step(&mut self) -> (r: Step)
        requires
            !old(self)@.in_flight,
        ensures
            source_wf(old(self)@) ==> source_wf(final(self)@),
            match source_pull(old(self)@) {
                PullView::Yield { name, post } => {
                    &&& r matches Step::Yield(n)
                    &&& n@ == name
                    &&& final(self)@ == post
                },
                PullView::Fetch { url, post } => {
                    &&& r matches Step::Fetch(u)
                    &&& u@ == url
                    &&& final(self)@ == post
                },
                PullView::Done => {
                    &&& r is Done
                    &&& final(self)@ == old(self)@
                },
            },
    {
        if self.buffer.len() > 0 {
            let ghost pre = self@;
            let name = self.buffer.remove(0);
            proof {
                assert(self@.buffer =~= pre.buffer.drop_first());
                assert(self@ =~~= (SourceView {
                    next: pre.next,
                    buffer: pre.buffer.drop_first(),
                    in_flight: pre.in_flight,
                }));
            }
            Step::Yield(name)
        } else {
            let taken = self.next.take();
            match taken {
                Some(url) => {
                    self.in_flight = true;
                    Step::Fetch(url)
                },
                None => {
                    proof {
                        assert(self@ =~~= old(self)@);
                    }
                    Step::Done
                },
            }
        }
    }

    /// Feeds one HTTP response in: exactly the `source_feed` transition.
    /// Throttling with a readable future retry time asks the caller to sleep
    /// and repeat the same request; an accepted page refills the buffer; all
    /// the failures of the error taxonomy halt the source for good.
    pub fn on_response(
        &mut self,
        status: u16,
        retry_after: Option<Vec<u8>>,
        body: PageBody,
        now: i64,
    ) -> (r: FetchOutcome)
        requires
            old(self)@.in_flight,
            source_wf(old(self)@),
        ensures
            source_wf(final(self)@),
            final(self)@ == source_feed(
                old(self)@,
                status,
                header_view(retry_after),
                body@,
                now as int,
            ).post,
            r@ == source_feed(old(self)@, status, header_view(retry_after), body@, now as int)
                .outcome,
    {
        if status == 429 {
            match retry_after {
                None => {
                    self.next = None;
                    self.in_flight = false;
                    proof {
                        assert(self@ =~~= halted(old(self)@));
                    }
                    FetchOutcome::Fatal(FetchError::MissingRetryHeader)
                },
                Some(h) => {
                    match parse_epoch(&h) {
                        Some(ts) => {
                            let wait_seconds: u64 = if ts > now {
                                proof {
                                    assert(0 < (ts as i128) - (now as i128) < 0x1_0000_0000_0000_0000i128);
                                }
                                ((ts as i128) - (now as i128)) as u64
                            } else {
                                0u64
                            };
                            proof {
                                assert(wait_seconds as int == retry_wait(ts as int, now as int));
                            }
                            FetchOutcome::Retry { wait_seconds }
                        },
                        None => {
                            self.next = None;
                            self.in_flight = false;
                            proof {
                                assert(self@ =~~= halted(old(self)@));
                            }
                            FetchOutcome::Fatal(FetchError::BadRetryHeader(h))
                        },
                    }
                },
            }
        } else if status >= 400 && status < 600 {
            self.next = None;
            self.in_flight = false;
            proof {
                assert(self@ =~~= halted(old(self)@));
            }
            FetchOutcome::Fatal(FetchError::Status(status))
        } else {
            match body {
                PageBody::Page(p) => {
                    let ghost pv = p@;
                    let Page { next, names } = p;
                    self.next = next;
                    self.buffer = names;
                    self.in_flight = false;
                    proof {
                        assert(self@ =~~= filled(pv));
                    }
                    FetchOutcome::Ready
                },
                PageBody::Invalid(m) => {
                    self.next = None;
                    self.in_flight = false;
                    proof {
                        assert(self@ =~~= halted(old(self)@));
                    }
                    FetchOutcome::Fatal(FetchError::MalformedBody(m))
                },
            }
        }
    }

    /// Reports that the request itself failed: terminal, the transport's
    /// message is carried out in the error, and the source halts for good.
    pub fn on_transport_failure(&mut self, message: String) -> (r: FetchOutcome)
        requires
            old(self)@.in_flight,
            source_wf(old(self)@),
        ensures
            source_wf(final(self)@),
            final(self)@ == halted(old(self)@),
            r@ == OutcomeView::Fatal(FetchErrorView::Transport(message@)),
    {
        self.next = None;
        self.in_flight = false;
        proof {
            assert(self@ =~~= halted(old(self)@));
        }
        FetchOutcome::Fatal(FetchError::Transport(message))
    }
}

/// The names the source hands out when, starting from state `s`, each fetch
/// it asks for is answered with the next page of `pages`.
pub open spec fn run_emissions(s: SourceView, pages: Seq<PageView>) -> Seq<Seq<char>>
    decreases pages.len(), s.buffer.len(),
{
    match source_pull(s) {
        PullView::Yield { name, post } => seq![name] + run_emissions(post, pages),
        PullView::Fetch { url: _, post } => {
            if pages.len() == 0 {
                Seq::<Seq<char>>::empty()
            } else {
                run_emissions(filled(pages[0]), pages.skip(1))
            }
        },
        PullView::Done => Seq::<Seq<char>>::empty(),
    }
}

/// Law: the source emits every tag name of every delivered page exactly once
/// and in within-page order: a run that is fed a chain of pages emits the
/// names it already buffered and then the pages' name lists, concatenated in
/// order.
pub proof fn lemma_emits_every_name_once(s: SourceView, pages: Seq<PageView>)
    requires
        !s.in_flight,
        (s.next is Some) <==> pages.len() > 0,
        forall|i: int| 0 <= i < pages.len() - 1 ==> (#[trigger] pages[i]).next is Some,
        pages.len() > 0 ==> pages.last().next is None,
    ensures
        run_emissions(s, pages) == s.buffer + pages.map_values(|p: PageView| p.names).flatten(),
    decreases pages.len(), s.buffer.len(),
{
    let names = pages.map_values(|p: PageView| p.names);
    if s.buffer.len() > 0 {
        let post = SourceView { next: s.next, buffer: s.buffer.drop_first(), in_flight: s.in_flight };
        lemma_emits_every_name_once(post, pages);
        assert(run_emissions(s, pages) =~= s.buffer + names.flatten());
    } else if s.next is Some {
        let p0 = pages[0];
        let rest = pages.skip(1);
        assert(forall|i: int| 0 <= i < rest.len() ==> #[trigger] rest[i] == pages[i + 1]);
        if pages.len() == 1 {
            assert(p0 == pages.last());
        }
        lemma_emits_every_name_once(filled(p0), rest);
        let rest_names = rest.map_values(|p: PageView| p.names);
        assert(names.drop_first() =~= rest_names);
        assert(names.len() > 0);
        assert(names.flatten() == names.first() + names.drop_first().flatten());
        assert(names.first() == p0.names);
        assert(run_emissions(s, pages) == run_emissions(filled(p0), rest));
        assert(run_emissions(s, pages) =~= s.buffer + names.flatten());
    } else {
        assert(pages.len() == 0);
        assert(names.flatten() == Seq::<Seq<char>>::empty());
        assert(run_emissions(s, pages) =~= s.buffer + names.flatten());
    }
}

/// Law: a throttling response whose retry time is not in the future asks for
/// no sleep at all — the outcome is a retry with a zero wait — and leaves the
/// state ready for the immediate retry.
pub proof fn lemma_past_retry_time_no_sleep(
    s: SourceView,
    h: Seq<u8>,
    body: PageBodyView,
    now: int,
)
    requires
        s.in_flight,
        source_wf(s),
        parse_epoch_spec(h) matches Some(ts) && ts <= now,
    ensures
        source_feed(s, 429, Some(h), body, now).outcome matches OutcomeView::Retry {
            wait_seconds,
        } && wait_seconds == 0,
        source_feed(s, 429, Some(h), body, now).post == s,
{
}

/// Law: a throttling response without the retry header is fatal and final:
/// the outcome is the missing-header error and the source will never yield
/// another tag.
pub proof fn lemma_missing_retry_header_halts(s: SourceView, body: PageBodyView, now: int)
    requires
        s.in_flight,
        source_wf(s),
    ensures
        source_feed(s, 429, None, body, now).outcome == OutcomeView::Fatal(
            FetchErrorView::MissingRetryHeader,
        ),
        source_pull(source_feed(s, 429, None, body, now).post) is Done,
{
}

} // verus!

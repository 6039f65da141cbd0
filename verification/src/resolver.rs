//! Iterative resolution as a state machine.
//!
//! A resolver never talks to the network. It says which query to send to
//! which server, is told what came back, and says what to do next, until it
//! has an answer or gives up. Whoever drives it sends the queries, one at a
//! time, each with a timeout of its own.
//!
//! An answer counts only if it is of the type asked for and about the name
//! asked for, letter for letter. An alias is not followed: where a server
//! answers with a CNAME record only, the resolution goes on as if it had not
//! answered.

use vstd::prelude::*;
use crate::error::DnsError;
use crate::fields::TypeField;
use crate::ipv4::Ipv4Address;
use crate::name::{encode_name, DomainName};
use crate::packet::{first_selected, lemma_first_selected, parse_message, DNSPacket, PacketView};
use crate::query::{build_query, lemma_query_wire, query_wire};
use crate::record::{ipv4_views, record_ipv4, record_value, Answer, AnswerView};

verus! {

/// How the transport can fail to bring a response.
#[derive(Clone, Copy, Debug, PartialEq, Eq, Structural)]
pub enum TransportFailure {
    /// No response arrived in time.
    Timeout,
    /// The query could not be sent, or the response could not be received.
    NetworkError,
}

impl TransportFailure {
    /// The error that a resolution ends with after this failure.
    pub open spec fn spec_error(self) -> DnsError {
        match self {
            TransportFailure::Timeout => DnsError::Timeout,
            TransportFailure::NetworkError => DnsError::NetworkError,
        }
    }

    /// The error that a resolution ends with after this failure.
    #[verifier::when_used_as_spec(spec_error)]
    pub fn error(self) -> (e: DnsError)
        ensures
            e == self.spec_error(),
    {
        match self {
            TransportFailure::Timeout => DnsError::Timeout,
            TransportFailure::NetworkError => DnsError::NetworkError,
        }
    }
}

/// One lookup in progress: the records of type `query_type` of `target` are
/// being asked of `nameserver`, after `hop_count` referrals.
struct Lookup {
    target: DomainName,
    query_type: TypeField,
    nameserver: Ipv4Address,
    hop_count: u32,
    /// The root hint that the lookup set out from: the first one, or the
    /// next one each time that a root server did not respond.
    root_index: usize,
}

/// What a lookup in progress says.
pub struct LookupView {
    pub target: Seq<char>,
    pub query_type: TypeField,
    pub nameserver: Seq<u8>,
    pub hop_count: nat,
    pub root_index: nat,
}

impl View for Lookup {
    type V = LookupView;

    closed spec fn view(&self) -> LookupView {
        LookupView {
            target: self.target@,
            query_type: self.query_type,
            nameserver: self.nameserver@,
            hop_count: self.hop_count as nat,
            root_index: self.root_index as nat,
        }
    }
}

/// What a resolver knows: the root hints, the bounds it was made with, and
/// the lookups in progress. The last lookup is the one whose query is under
/// way; each lookup before it waits for the address of a name server that
/// the lookup behind it is to find.
pub struct ResolverView {
    pub root_hints: Seq<Seq<u8>>,
    pub max_hops: nat,
    pub max_depth: nat,
    pub stack: Seq<LookupView>,
}

/// Whether a resolver is in order: it has a root hint and a lookup in
/// progress, no more lookups than the depth allows, and no lookup has taken
/// more referrals than allowed or started from a root hint that is not
/// there.
pub open spec fn resolver_valid(r: ResolverView) -> bool {
    &&& r.root_hints.len() > 0
    &&& 0 < r.stack.len() <= r.max_depth + 1
    &&& forall|i: int|
        0 <= i < r.stack.len() ==> (#[trigger] r.stack[i]).hop_count <= r.max_hops
            && r.stack[i].root_index < r.root_hints.len()
}

/// What a failure says: the error, and the lookup that was in progress when
/// the resolution gave up, with the number of lookups that waited for it.
pub struct FailureView {
    pub error: DnsError,
    pub target: Seq<char>,
    pub query_type: TypeField,
    pub nameserver: Seq<u8>,
    pub hop_count: nat,
    pub depth: nat,
}

/// What a resolver wants next.
pub enum StepView {
    /// The query of the last lookup is to be sent to its name server.
    Send(ResolverView),
    /// The resolution is over.
    Done(Result<AnswerView, FailureView>),
}

/// The resolution gives up with `error` in the middle of the last lookup.
pub open spec fn give_up(r: ResolverView, error: DnsError) -> StepView {
    let lookup = r.stack.last();
    StepView::Done(
        Err(
            FailureView {
                error,
                target: lookup.target,
                query_type: lookup.query_type,
                nameserver: lookup.nameserver,
                hop_count: lookup.hop_count,
                depth: (r.stack.len() - 1) as nat,
            },
        ),
    )
}

/// The resolver with `lookup` in place of its last lookup.
pub open spec fn with_top(r: ResolverView, lookup: LookupView) -> ResolverView {
    ResolverView { stack: r.stack.drop_last().push(lookup), ..r }
}

/// Sends the query of the last lookup, unless its name cannot be encoded.
pub open spec fn ask(r: ResolverView) -> StepView {
    if encode_name(r.stack.last().target) is Ok {
        StepView::Send(r)
    } else {
        give_up(r, DnsError::InvalidFormat)
    }
}

/// Starts the lookup of the records of type `query_type` of `name` at the
/// first root hint.
pub open spec fn begin(
    root_hints: Seq<Seq<u8>>,
    max_hops: nat,
    max_depth: nat,
    name: Seq<char>,
    query_type: TypeField,
) -> StepView {
    ask(
        ResolverView {
            root_hints,
            max_hops,
            max_depth,
            stack: seq![
                LookupView {
                    target: name,
                    query_type,
                    nameserver: root_hints[0],
                    hop_count: 0,
                    root_index: 0,
                },
            ],
        },
    )
}

/// Follows a referral of the last lookup to the name server at `address`:
/// one more hop, which must not be one too many.
pub open spec fn redirect(r: ResolverView, address: Seq<u8>) -> StepView {
    let lookup = r.stack.last();
    if lookup.hop_count >= r.max_hops {
        give_up(r, DnsError::TooManyRedirections)
    } else {
        ask(
            with_top(
                r,
                LookupView {
                    nameserver: address,
                    hop_count: lookup.hop_count + 1,
                    ..lookup
                },
            ),
        )
    }
}

/// Ends the last lookup with `value`. If it was the only one, the resolution
/// is over. Otherwise the value is the address of the name server that the
/// lookup before it waits for, which follows its referral there.
pub open spec fn deliver(r: ResolverView, value: AnswerView) -> StepView {
    if r.stack.len() <= 1 {
        StepView::Done(Ok(value))
    } else {
        match value {
            AnswerView::Ipv4(address) => redirect(
                ResolverView { stack: r.stack.drop_last(), ..r },
                address,
            ),
            _ => give_up(r, DnsError::NoAnswer),
        }
    }
}

/// Starts a lookup of the address of the name server `ns_name` at the first
/// root hint, with a hop count of its own, unless the lookups are nested too
/// deep already.
pub open spec fn descend(r: ResolverView, ns_name: Seq<char>) -> StepView {
    if r.stack.len() > r.max_depth {
        give_up(r, DnsError::TooManyRedirections)
    } else {
        ask(
            ResolverView {
                stack: r.stack.push(
                    LookupView {
                        target: ns_name,
                        query_type: TypeField::A,
                        nameserver: r.root_hints[0],
                        hop_count: 0,
                        root_index: 0,
                    },
                ),
                ..r
            },
        )
    }
}

/// The address of a name server that a response gives along with a
/// referral: that of its first additional record of type A.
pub open spec fn glue(m: PacketView) -> Option<Seq<u8>> {
    match first_selected(m.additionals, None, TypeField::A) {
        Some(i) => record_ipv4(m.additionals[i]),
        None => None,
    }
}

/// The name server that a response refers to: that of its first authority
/// record of type NS.
pub open spec fn referred_name(m: PacketView) -> Option<Seq<char>> {
    match first_selected(m.authorities, None, TypeField::NS) {
        Some(i) => m.authorities[i].ns_name,
        None => None,
    }
}

/// What a resolver does with the response `m` to the query of its last
/// lookup.
///
/// A truncated response is not trusted. The first answer of the type asked
/// for and about the name asked for ends the lookup. Failing that, an
/// address given along leads to the next name server. Failing that, the name
/// of a name server is looked up first. Failing that, there is no answer.
pub open spec fn react(r: ResolverView, m: PacketView) -> StepView {
    let lookup = r.stack.last();
    if m.header.spec_is_truncated() {
        give_up(r, DnsError::Truncated)
    } else {
        match first_selected(m.answers, Some(lookup.target), lookup.query_type) {
            Some(i) => deliver(r, record_value(m.answers[i])),
            None => match glue(m) {
                Some(address) => redirect(r, address),
                None => match referred_name(m) {
                    Some(ns_name) => descend(r, ns_name),
                    None => give_up(r, DnsError::NoAnswer),
                },
            },
        }
    }
}

/// What a resolver does with the octets that came back for the query of its
/// last lookup: if they are no message, the resolution fails as decoding
/// does.
pub open spec fn respond(r: ResolverView, response: Seq<u8>) -> StepView {
    match parse_message(response) {
        Ok(m) => react(r, m),
        Err(e) => give_up(r, e),
    }
}

/// What a resolver does when no response came back for the query of its last
/// lookup: a lookup that has not left the root hints tries the next one, and
/// any other gives up.
pub open spec fn fail(r: ResolverView, e: DnsError) -> StepView {
    let lookup = r.stack.last();
    if lookup.hop_count == 0 && lookup.root_index + 1 < r.root_hints.len() {
        ask(
            with_top(
                r,
                LookupView {
                    nameserver: r.root_hints[lookup.root_index as int + 1],
                    root_index: lookup.root_index + 1,
                    ..lookup
                },
            ),
        )
    } else {
        give_up(r, e)
    }
}

/// What the lookups of a list say.
closed spec fn lookup_views(list: Seq<Lookup>) -> Seq<LookupView> {
    Seq::new(list.len(), |i: int| list[i]@)
}

/// The state of an iterative resolution between two queries.
pub struct Resolver {
    root_hints: Vec<Ipv4Address>,
    max_hops: u32,
    max_depth: u32,
    stack: Vec<Lookup>,
}

impl View for Resolver {
    type V = ResolverView;

    closed spec fn view(&self) -> ResolverView {
        ResolverView {
            root_hints: ipv4_views(self.root_hints@),
            max_hops: self.max_hops as nat,
            max_depth: self.max_depth as nat,
            stack: lookup_views(self.stack@),
        }
    }
}

/// Why a resolution gave up, and where: in the lookup of the records of type
/// `query_type` of `target`, which had followed `hop_count` referrals and
/// was at the name server `nameserver`, while `depth` lookups waited for it.
/// The error tells the stage, see `DnsError::stage`.
#[derive(Debug)]
pub struct Failure {
    pub error: DnsError,
    pub target: DomainName,
    pub query_type: TypeField,
    pub nameserver: Ipv4Address,
    pub hop_count: u32,
    pub depth: usize,
}

impl View for Failure {
    type V = FailureView;

    open spec fn view(&self) -> FailureView {
        FailureView {
            error: self.error,
            target: self.target@,
            query_type: self.query_type,
            nameserver: self.nameserver@,
            hop_count: self.hop_count as nat,
            depth: self.depth as nat,
        }
    }
}

/// What a resolver wants next.
pub enum Step {
    /// Send `query` to `server`, then hand the outcome to `resolver`.
    Send { resolver: Resolver, server: Ipv4Address, query: Vec<u8> },
    /// The resolution is over.
    Done(Result<Answer, Failure>),
}

/// Whether `step` is what `expected` prescribes: the same end, or a query
/// for the last lookup of the same resolver, under some transaction id, to
/// that lookup's name server.
pub open spec fn step_agrees(step: Step, expected: StepView) -> bool {
    match step {
        Step::Send { resolver, server, query } => {
            &&& expected == StepView::Send(resolver@)
            &&& resolver_valid(resolver@)
            &&& server@ == resolver@.stack.last().nameserver
            &&& exists|id: u16|
                query_wire(
                    id,
                    resolver@.stack.last().target,
                    resolver@.stack.last().query_type,
                ) == Ok::<Seq<u8>, DnsError>(query@)
        },
        Step::Done(Ok(answer)) => expected == StepView::Done(Ok(answer@)),
        Step::Done(Err(failure)) => expected == StepView::Done(Err(failure@)),
    }
}

/// What the first answer of type `query_type` about `name` holds.
fn find_value(packet: &DNSPacket, name: &DomainName, query_type: TypeField) -> (r: Option<Answer>)
    ensures
        match first_selected(packet@.answers, Some(name@), query_type) {
            Some(i) => r matches Some(value) && value@ == record_value(packet@.answers[i]),
            None => r is None,
        },
{
    proof {
        lemma_first_selected(packet@.answers, Some(name@), query_type);
    }
    match packet.find_answer(name, query_type) {
        Some(record) => Some(record.value()),
        None => None,
    }
}

/// The address of a name server that the response gives along.
fn find_glue(packet: &DNSPacket) -> (r: Option<Ipv4Address>)
    ensures
        match glue(packet@) {
            Some(address) => r matches Some(found) && found@ == address,
            None => r is None,
        },
{
    proof {
        lemma_first_selected(packet@.additionals, None, TypeField::A);
    }
    match packet.get_nameserver_record() {
        Some(record) => record.first_ipv4(),
        None => None,
    }
}

/// The name server that the response refers to.
fn find_referred_name(packet: &DNSPacket) -> (r: Option<DomainName>)
    ensures
        match referred_name(packet@) {
            Some(ns_name) => r matches Some(found) && found@ == ns_name,
            None => r is None,
        },
{
    proof {
        lemma_first_selected(packet@.authorities, None, TypeField::NS);
    }
    match packet.get_nameserver() {
        Some(record) => match &record.ns_name {
            Some(ns_name) => Some(ns_name.clone()),
            None => None,
        },
        None => None,
    }
}

impl Resolver {
    #[verifier::type_invariant]
    closed spec fn valid(self) -> bool {
        resolver_valid(self@)
    }

    /// The name that the lookup in progress asks about.
    pub fn target(&self) -> (r: &DomainName)
        ensures
            r@ == self@.stack.last().target,
    {
        proof {
            use_type_invariant(self);
        }
        &self.stack[self.stack.len() - 1].target
    }

    /// The record type that the lookup in progress asks for.
    pub fn query_type(&self) -> (r: TypeField)
        ensures
            r == self@.stack.last().query_type,
    {
        proof {
            use_type_invariant(self);
        }
        self.stack[self.stack.len() - 1].query_type
    }

    /// The name server that the lookup in progress asks.
    pub fn nameserver(&self) -> (r: Ipv4Address)
        ensures
            r@ == self@.stack.last().nameserver,
    {
        proof {
            use_type_invariant(self);
        }
        self.stack[self.stack.len() - 1].nameserver
    }

    /// How many referrals the lookup in progress has followed.
    pub fn hop_count(&self) -> (r: u32)
        ensures
            r == self@.stack.last().hop_count,
    {
        proof {
            use_type_invariant(self);
        }
        self.stack[self.stack.len() - 1].hop_count
    }

    /// How many lookups of name server addresses are nested in one another
    /// at present.
    pub fn depth(&self) -> (r: usize)
        ensures
            r == self@.stack.len() - 1,
    {
        proof {
            use_type_invariant(self);
        }
        self.stack.len() - 1
    }

    /// Gives up with `error` in the middle of the last lookup.
    fn give_up(self, error: DnsError) -> (step: Step)
        ensures
            step_agrees(step, give_up(self@, error)),
    {
        proof {
            use_type_invariant(&self);
        }
        let ghost view = self@;
        let Resolver { root_hints, max_hops, max_depth, mut stack } = self;
        let top = stack.pop().unwrap();
        assert(top@ == view.stack.last());
        Step::Done(
            Err(
                Failure {
                    error,
                    target: top.target,
                    query_type: top.query_type,
                    nameserver: top.nameserver,
                    hop_count: top.hop_count,
                    depth: stack.len(),
                },
            ),
        )
    }

    /// Sends the query of the last lookup.
    fn ask(self) -> (step: Step)
        ensures
            step_agrees(step, ask(self@)),
    {
        proof {
            use_type_invariant(&self);
        }
        let ghost view = self@;
        let ghost lookup = view.stack.last();
        let top = &self.stack[self.stack.len() - 1];
        assert(top@ == lookup);
        match build_query(&top.target, top.query_type) {
            Ok(query) => {
                let server = top.nameserver;
                proof {
                    let id = choose|id: u16|
                        query_wire(id, lookup.target, lookup.query_type) == Ok::<
                            Seq<u8>,
                            DnsError,
                        >(query@);
                    lemma_query_wire(id, lookup.target, lookup.query_type);
                }
                Step::Send { resolver: self, server, query }
            },
            Err(e) => {
                proof {
                    lemma_query_wire(0, lookup.target, lookup.query_type);
                }
                self.give_up(e)
            },
        }
    }

    /// Starts the resolution of the records of type `query_type` of `name`
    /// at the first of `root_hints`. A lookup follows at most `max_hops`
    /// referrals, and at most `max_depth` lookups of name server addresses
    /// are nested in one another.
    pub fn start(
        root_hints: Vec<Ipv4Address>,
        max_hops: u32,
        max_depth: u32,
        name: DomainName,
        query_type: TypeField,
    ) -> (step: Step)
        requires
            root_hints@.len() > 0,
        ensures
            step_agrees(
                step,
                begin(
                    ipv4_views(root_hints@),
                    max_hops as nat,
                    max_depth as nat,
                    name@,
                    query_type,
                ),
            ),
    {
        let mut stack: Vec<Lookup> = Vec::new();
        let first = Lookup {
            target: name,
            query_type,
            nameserver: root_hints[0],
            hop_count: 0,
            root_index: 0,
        };
        let ghost lookup = first@;
        stack.push(first);
        assert(lookup_views(stack@) =~= seq![lookup]);
        let resolver = Resolver { root_hints, max_hops, max_depth, stack };
        resolver.ask()
    }

    /// Follows a referral of the last lookup to the name server at `address`.
    fn redirect(self, address: Ipv4Address) -> (step: Step)
        ensures
            step_agrees(step, redirect(self@, address@)),
    {
        proof {
            use_type_invariant(&self);
        }
        let ghost view = self@;
        if self.hop_count() >= self.max_hops {
            return self.give_up(DnsError::TooManyRedirections);
        }
        let Resolver { root_hints, max_hops, max_depth, mut stack } = self;
        let top = stack.pop().unwrap();
        assert(top@ == view.stack.last());
        let next = Lookup {
            target: top.target,
            query_type: top.query_type,
            nameserver: address,
            hop_count: top.hop_count + 1,
            root_index: top.root_index,
        };
        let ghost lookup = next@;
        stack.push(next);
        proof {
            assert(lookup_views(stack@) =~= view.stack.drop_last().push(lookup));
            assert forall|i: int| 0 <= i < stack@.len() implies (#[trigger] lookup_views(
                stack@,
            )[i]).hop_count <= max_hops && lookup_views(stack@)[i].root_index
                < root_hints@.len() by {
                if i < stack@.len() - 1 {
                    assert(lookup_views(stack@)[i] == view.stack[i]);
                }
            }
        }
        let resolver = Resolver { root_hints, max_hops, max_depth, stack };
        resolver.ask()
    }

    /// Ends the last lookup with `value`.
    fn deliver(self, value: Answer) -> (step: Step)
        ensures
            step_agrees(step, deliver(self@, value@)),
    {
        proof {
            use_type_invariant(&self);
        }
        let ghost view = self@;
        if self.stack.len() <= 1 {
            return Step::Done(Ok(value));
        }
        match value {
            Answer::Ipv4(address) => {
                let Resolver { root_hints, max_hops, max_depth, mut stack } = self;
                stack.pop();
                proof {
                    assert(lookup_views(stack@) =~= view.stack.drop_last());
                    assert forall|i: int| 0 <= i < stack@.len() implies (#[trigger] lookup_views(
                        stack@,
                    )[i]).hop_count <= max_hops && lookup_views(stack@)[i].root_index
                        < root_hints@.len() by {
                        assert(lookup_views(stack@)[i] == view.stack[i]);
                    }
                }
                let resolver = Resolver { root_hints, max_hops, max_depth, stack };
                resolver.redirect(address)
            },
            _ => self.give_up(DnsError::NoAnswer),
        }
    }

    /// Starts a lookup of the address of the name server `ns_name`.
    fn descend(self, ns_name: DomainName) -> (step: Step)
        ensures
            step_agrees(step, descend(self@, ns_name@)),
    {
        proof {
            use_type_invariant(&self);
        }
        let ghost view = self@;
        if self.stack.len() > self.max_depth as usize {
            return self.give_up(DnsError::TooManyRedirections);
        }
        let Resolver { root_hints, max_hops, max_depth, mut stack } = self;
        let nested = Lookup {
            target: ns_name,
            query_type: TypeField::A,
            nameserver: root_hints[0],
            hop_count: 0,
            root_index: 0,
        };
        let ghost lookup = nested@;
        stack.push(nested);
        proof {
            assert(lookup_views(stack@) =~= view.stack.push(lookup));
            assert forall|i: int| 0 <= i < stack@.len() implies (#[trigger] lookup_views(
                stack@,
            )[i]).hop_count <= max_hops && lookup_views(stack@)[i].root_index
                < root_hints@.len() by {
                if i < stack@.len() - 1 {
                    assert(lookup_views(stack@)[i] == view.stack[i]);
                }
            }
        }
        let resolver = Resolver { root_hints, max_hops, max_depth, stack };
        resolver.ask()
    }

    /// Takes the decoded response to the query that was sent last, and says
    /// what to do next.
    fn react(self, packet: &DNSPacket) -> (step: Step)
        ensures
            step_agrees(step, react(self@, packet@)),
    {
        proof {
            use_type_invariant(&self);
        }
        if packet.header.is_truncated() {
            return self.give_up(DnsError::Truncated);
        }
        let top = &self.stack[self.stack.len() - 1];
        assert(top@ == self@.stack.last());
        if let Some(value) = find_value(packet, &top.target, top.query_type) {
            return self.deliver(value);
        }
        if let Some(address) = find_glue(packet) {
            return self.redirect(address);
        }
        match find_referred_name(packet) {
            Some(ns_name) => self.descend(ns_name),
            None => self.give_up(DnsError::NoAnswer),
        }
    }

    /// Takes the response to the query that was sent last, and says what to
    /// do next.
    pub fn on_response(self, response: &[u8]) -> (step: Step)
        ensures
            step_agrees(step, respond(self@, response@)),
    {
        match DNSPacket::from(response) {
            Ok(packet) => self.react(&packet),
            Err(e) => self.give_up(e),
        }
    }

    /// Takes note that no response came for the query that was sent last,
    /// and says what to do next.
    pub fn on_failure(self, failure: TransportFailure) -> (step: Step)
        ensures
            step_agrees(step, fail(self@, failure.spec_error())),
    {
        proof {
            use_type_invariant(&self);
        }
        let ghost view = self@;
        let hints = self.root_hints.len();
        let last = &self.stack[self.stack.len() - 1];
        assert(last@ == view.stack.last());
        assert(view.stack[view.stack.len() - 1].root_index < view.root_hints.len());
        if last.hop_count != 0 || last.root_index + 1 >= hints {
            return self.give_up(failure.error());
        }
        let Resolver { root_hints, max_hops, max_depth, mut stack } = self;
        let top = stack.pop().unwrap();
        assert(top@ == view.stack.last());
        let next = Lookup {
            target: top.target,
            query_type: top.query_type,
            nameserver: root_hints[top.root_index + 1],
            hop_count: top.hop_count,
            root_index: top.root_index + 1,
        };
        let ghost lookup = next@;
        stack.push(next);
        proof {
            assert(lookup_views(stack@) =~= view.stack.drop_last().push(lookup));
            assert forall|i: int| 0 <= i < stack@.len() implies (#[trigger] lookup_views(
                stack@,
            )[i]).hop_count <= max_hops && lookup_views(stack@)[i].root_index
                < root_hints@.len() by {
                if i < stack@.len() - 1 {
                    assert(lookup_views(stack@)[i] == view.stack[i]);
                }
            }
        }
        let resolver = Resolver { root_hints, max_hops, max_depth, stack };
        resolver.ask()
    }
}

/// What a driver hands to a resolver after a query: the octets that came
/// back, or the way in which the transport failed.
pub enum Event {
    Response(Seq<u8>),
    Failure(TransportFailure),
}

/// What a resolver does with an event.
pub open spec fn handle(r: ResolverView, event: Event) -> StepView {
    match event {
        Event::Response(response) => respond(r, response),
        Event::Failure(failure) => fail(r, failure.spec_error()),
    }
}

/// How a resolution goes on from a resolver whose query is under way, when
/// `events` come in, one for each query: what it ends with, and how many
/// queries were sent from this one on. `None` if the events run out before
/// it ends.
pub open spec fn run(r: ResolverView, events: Seq<Event>) -> Option<
    (Result<AnswerView, FailureView>, nat),
>
    decreases events.len(),
{
    if events.len() == 0 {
        None
    } else {
        match handle(r, events[0]) {
            StepView::Done(result) => Some((result, 1)),
            StepView::Send(next) => match run(next, events.drop_first()) {
                Some((result, queries)) => Some((result, queries + 1)),
                None => None,
            },
        }
    }
}

/// Whether `event` is a response that answers the question for the records
/// of type `query_type` of `target` with `value`.
pub open spec fn is_answer(
    event: Event,
    target: Seq<char>,
    query_type: TypeField,
    value: AnswerView,
) -> bool {
    &&& event matches Event::Response(response)
    &&& parse_message(response) matches Ok(m)
    &&& !m.header.spec_is_truncated()
    &&& first_selected(m.answers, Some(target), query_type) matches Some(i)
    &&& record_value(m.answers[i]) == value
}

/// Whether `event` is a response that does not answer the question for the
/// records of type `query_type` of `target`, but refers to another name
/// server and gives its address along.
pub open spec fn is_referral(event: Event, target: Seq<char>, query_type: TypeField) -> bool {
    &&& event matches Event::Response(response)
    &&& parse_message(response) matches Ok(m)
    &&& !m.header.spec_is_truncated()
    &&& first_selected(m.answers, Some(target), query_type) is None
    &&& glue(m) is Some
}

/// Whether a resolver has a single lookup in progress, of a name that can be
/// encoded.
pub open spec fn single_lookup(r: ResolverView) -> bool {
    resolver_valid(r) && r.stack.len() == 1 && encode_name(r.stack[0].target) is Ok
}

/// A referral with an address given along costs a single lookup one hop and
/// one more query, as long as hops are left.
proof fn lemma_referral_step(r: ResolverView, event: Event)
    requires
        single_lookup(r),
        is_referral(event, r.stack[0].target, r.stack[0].query_type),
    ensures
        r.stack[0].hop_count >= r.max_hops ==> handle(r, event) == give_up(
            r,
            DnsError::TooManyRedirections,
        ),
        r.stack[0].hop_count < r.max_hops ==> ({
            &&& handle(r, event) matches StepView::Send(next)
            &&& single_lookup(next)
            &&& next.max_hops == r.max_hops
            &&& next.stack[0].target == r.stack[0].target
            &&& next.stack[0].query_type == r.stack[0].query_type
            &&& next.stack[0].hop_count == r.stack[0].hop_count + 1
        }),
{
    let lookup = r.stack.last();
    assert(lookup == r.stack[0]);
    let m = parse_message(event->Response_0)->Ok_0;
    let address = glue(m)->Some_0;
    if lookup.hop_count < r.max_hops {
        let next = with_top(
            r,
            LookupView { nameserver: address, hop_count: lookup.hop_count + 1, ..lookup },
        );
        assert(next.stack.len() == 1);
        assert(next.stack.last() == next.stack[0]);
        assert(handle(r, event) == ask(next));
    }
}

/// A name that takes `n` referrals, each with an address given along, is
/// resolved with exactly `n + 1` queries: one for each referral and one for
/// the answer. A name that the first server answers takes one query and no
/// hop.
pub proof fn lemma_referrals_then_answer(r: ResolverView, events: Seq<Event>, value: AnswerView)
    requires
        single_lookup(r),
        events.len() > 0,
        r.stack[0].hop_count + events.len() - 1 <= r.max_hops,
        forall|i: int|
            0 <= i < events.len() - 1 ==> is_referral(
                #[trigger] events[i],
                r.stack[0].target,
                r.stack[0].query_type,
            ),
        is_answer(events.last(), r.stack[0].target, r.stack[0].query_type, value),
    ensures
        run(r, events) == Some((Ok::<AnswerView, FailureView>(value), events.len())),
    decreases events.len(),
{
    assert(r.stack.last() == r.stack[0]);
    if events.len() == 1 {
        assert(events[0] == events.last());
        assert(handle(r, events[0]) == StepView::Done(Ok(value)));
    } else {
        assert(is_referral(events[0], r.stack[0].target, r.stack[0].query_type));
        lemma_referral_step(r, events[0]);
        let next = handle(r, events[0])->Send_0;
        let rest = events.drop_first();
        assert forall|i: int| 0 <= i < rest.len() - 1 implies is_referral(
            #[trigger] rest[i],
            next.stack[0].target,
            next.stack[0].query_type,
        ) by {
            assert(rest[i] == events[i + 1]);
        }
        assert(rest.last() == events.last());
        lemma_referrals_then_answer(next, rest, value);
    }
}

/// Referrals without end are cut off: a lookup that meets nothing but
/// referrals, as in a cycle of servers that refer to one another, ends with
/// `TooManyRedirections` once its hops are used up, after one query for each
/// hop that was left and one more.
pub proof fn lemma_referrals_are_cut_off(r: ResolverView, events: Seq<Event>)
    requires
        single_lookup(r),
        events.len() > r.max_hops - r.stack[0].hop_count,
        forall|i: int|
            0 <= i < events.len() ==> is_referral(
                #[trigger] events[i],
                r.stack[0].target,
                r.stack[0].query_type,
            ),
    ensures
        run(r, events) matches Some((Err(failure), queries)) && failure.error
            == DnsError::TooManyRedirections && failure.hop_count == r.max_hops && queries
            == r.max_hops - r.stack[0].hop_count + 1,
    decreases events.len(),
{
    assert(is_referral(events[0], r.stack[0].target, r.stack[0].query_type));
    lemma_referral_step(r, events[0]);
    if r.stack[0].hop_count < r.max_hops {
        let next = handle(r, events[0])->Send_0;
        let rest = events.drop_first();
        assert forall|i: int| 0 <= i < rest.len() implies is_referral(
            #[trigger] rest[i],
            next.stack[0].target,
            next.stack[0].query_type,
        ) by {
            assert(rest[i] == events[i + 1]);
        }
        lemma_referrals_are_cut_off(next, rest);
    }
}

/// The most queries that a lookup can take, its first one included, when
/// there are `hints` root hints, a lookup follows at most `hops` referrals,
/// and lookups may be nested `depth` deep below it: one query for each root
/// hint, one for each hop, and before each hop and after the last one a
/// nested lookup.
pub open spec fn lookup_cost(hints: nat, hops: nat, depth: nat) -> nat
    decreases depth,
{
    if depth == 0 {
        hints + hops
    } else {
        hints + hops + (hops + 1) * lookup_cost(hints, hops, (depth - 1) as nat)
    }
}

/// The most queries that a lookup nested in the lookup at `level` of the
/// stack can take.
pub open spec fn nest_cost(r: ResolverView, level: int) -> int {
    if level < r.max_depth {
        lookup_cost(r.root_hints.len(), r.max_hops, (r.max_depth - level - 1) as nat) as int
    } else {
        0
    }
}

/// The most queries that the lookup at `level` can still take once the
/// lookup that it waits for returns: one for each hop that is left, and a
/// nested lookup after each.
pub open spec fn waiting_budget(r: ResolverView, level: int) -> int {
    (r.max_hops - r.stack[level].hop_count) * (1 + nest_cost(r, level))
}

/// The most queries that the lookups below `level` can still take once the
/// lookups that they wait for return.
pub open spec fn waiting_budgets(r: ResolverView, level: int) -> int
    decreases level,
{
    if level <= 0 {
        0
    } else {
        waiting_budgets(r, level - 1) + waiting_budget(r, level - 1)
    }
}

/// The most queries that the last lookup can still take, the one under way
/// not included: one for each root hint that is left while it has not left
/// the roots, one for each hop that is left, and a nested lookup before each
/// hop and after the last.
pub open spec fn top_budget(r: ResolverView) -> int {
    let level = r.stack.len() - 1;
    let lookup = r.stack.last();
    (if lookup.hop_count == 0 {
        r.root_hints.len() - 1 - lookup.root_index
    } else {
        0
    }) + (r.max_hops - lookup.hop_count) + (r.max_hops - lookup.hop_count + 1) * nest_cost(
        r,
        level,
    )
}

/// The most queries that a resolution can still take, the one under way not
/// included.
pub open spec fn budget(r: ResolverView) -> int {
    top_budget(r) + waiting_budgets(r, r.stack.len() - 1)
}

/// What the lookups below `level` can still take depends on these lookups
/// and on the bounds only.
proof fn lemma_waiting_budgets_frame(r: ResolverView, other: ResolverView, level: int)
    requires
        r.root_hints == other.root_hints,
        r.max_hops == other.max_hops,
        r.max_depth == other.max_depth,
        0 <= level <= r.stack.len(),
        level <= other.stack.len(),
        forall|i: int| 0 <= i < level ==> r.stack[i] == other.stack[i],
    ensures
        waiting_budgets(r, level) == waiting_budgets(other, level),
    decreases level,
{
    if level > 0 {
        lemma_waiting_budgets_frame(r, other, level - 1);
        assert(r.stack[level - 1] == other.stack[level - 1]);
    }
}

/// No budget of a resolver that is in order is negative.
proof fn lemma_budgets_are_not_negative(r: ResolverView, level: int)
    requires
        resolver_valid(r),
        0 <= level <= r.stack.len(),
    ensures
        waiting_budgets(r, level) >= 0,
        top_budget(r) >= 0,
        forall|i: int| 0 <= i < r.stack.len() ==> #[trigger] waiting_budget(r, i) >= 0,
        forall|i: int| #[trigger] nest_cost(r, i) >= 0,
    decreases level,
{
    assert forall|i: int| 0 <= i < r.stack.len() implies #[trigger] waiting_budget(r, i)
        >= 0 by {
        let left = r.max_hops - r.stack[i].hop_count;
        let nested = nest_cost(r, i);
        assert(left >= 0);
        assert(left * (1 + nested) >= 0) by (nonlinear_arith)
            requires
                left >= 0,
                nested >= 0,
        ;
    }
    if level > 0 {
        lemma_budgets_are_not_negative(r, level - 1);
    }
    let top = r.stack[r.stack.len() - 1];
    let left = r.max_hops - top.hop_count;
    let nested = nest_cost(r, r.stack.len() - 1);
    assert(left >= 0);
    assert((left + 1) * nested >= 0) by (nonlinear_arith)
        requires
            left >= 0,
            nested >= 0,
    ;
}

/// Following a referral spends budget: what is left is one query for each
/// hop that is left then, and a nested lookup before each hop and after the
/// last.
proof fn lemma_redirect_spends(r: ResolverView, address: Seq<u8>)
    requires
        resolver_valid(r),
    ensures
        redirect(r, address) matches StepView::Send(next) ==> {
            &&& resolver_valid(next)
            &&& 0 <= budget(next) < budget(r)
            &&& budget(next) == (r.max_hops - r.stack.last().hop_count - 1) + (r.max_hops
                - r.stack.last().hop_count) * nest_cost(r, r.stack.len() - 1) + waiting_budgets(
                r,
                r.stack.len() - 1,
            )
        },
{
    let level = r.stack.len() - 1;
    let lookup = r.stack.last();
    if lookup.hop_count < r.max_hops {
        let moved = LookupView { nameserver: address, hop_count: lookup.hop_count + 1, ..lookup };
        let next = with_top(r, moved);
        if redirect(r, address) is Send {
            assert(redirect(r, address) == StepView::Send(next));
            assert(next.stack.len() == r.stack.len());
            assert(next.stack.last() == moved);
            assert forall|i: int| 0 <= i < next.stack.len() implies (
            #[trigger] next.stack[i]).hop_count <= next.max_hops && next.stack[i].root_index
                < next.root_hints.len() by {
                if i < level {
                    assert(next.stack[i] == r.stack[i]);
                }
            }
            lemma_waiting_budgets_frame(r, next, level);
            lemma_budgets_are_not_negative(r, level);
            lemma_budgets_are_not_negative(next, level);
            let left = r.max_hops - lookup.hop_count;
            let nested = nest_cost(r, level);
            assert(nest_cost(next, level) == nested);
            assert((left + 1) * nested == left * nested + nested) by (nonlinear_arith);
        }
    }
}

/// Trying the next root hint spends budget.
proof fn lemma_fail_spends(r: ResolverView, e: DnsError)
    requires
        resolver_valid(r),
    ensures
        fail(r, e) matches StepView::Send(next) ==> resolver_valid(next) && 0 <= budget(next)
            < budget(r),
{
    let level = r.stack.len() - 1;
    let lookup = r.stack.last();
    if lookup.hop_count == 0 && lookup.root_index + 1 < r.root_hints.len() {
        let moved = LookupView {
            nameserver: r.root_hints[lookup.root_index as int + 1],
            root_index: lookup.root_index + 1,
            ..lookup
        };
        let next = with_top(r, moved);
        if fail(r, e) is Send {
            assert(fail(r, e) == StepView::Send(next));
            assert(next.stack.last() == moved);
            assert forall|i: int| 0 <= i < next.stack.len() implies (#[trigger] next.stack[i]).hop_count
                <= next.max_hops && next.stack[i].root_index < next.root_hints.len() by {
                if i < level {
                    assert(next.stack[i] == r.stack[i]);
                }
            }
            lemma_waiting_budgets_frame(r, next, level);
            lemma_budgets_are_not_negative(next, level);
            assert(nest_cost(next, level) == nest_cost(r, level));
        }
    }
}

/// Starting a nested lookup spends budget.
proof fn lemma_descend_spends(r: ResolverView, ns_name: Seq<char>)
    requires
        resolver_valid(r),
    ensures
        descend(r, ns_name) matches StepView::Send(next) ==> resolver_valid(next) && 0 <= budget(
            next,
        ) < budget(r),
{
    let level = r.stack.len() - 1;
    let lookup = r.stack.last();
    if r.stack.len() <= r.max_depth {
        let nested = LookupView {
            target: ns_name,
            query_type: TypeField::A,
            nameserver: r.root_hints[0],
            hop_count: 0,
            root_index: 0,
        };
        let next = ResolverView { stack: r.stack.push(nested), ..r };
        if descend(r, ns_name) is Send {
            assert(descend(r, ns_name) == StepView::Send(next));
            assert(next.stack.last() == nested);
            assert forall|i: int| 0 <= i < next.stack.len() implies (#[trigger] next.stack[i]).hop_count
                <= next.max_hops && next.stack[i].root_index < next.root_hints.len() by {
                if i <= level {
                    assert(next.stack[i] == r.stack[i]);
                }
            }
            lemma_waiting_budgets_frame(r, next, level);
            lemma_budgets_are_not_negative(r, level);
            lemma_budgets_are_not_negative(next, level + 1);
            assert(next.stack[level] == lookup);
            let left = r.max_hops - lookup.hop_count;
            let below = nest_cost(r, level);
            let deeper = nest_cost(next, level + 1);
            assert(nest_cost(next, level) == below);
            assert(waiting_budgets(next, level + 1) == waiting_budgets(next, level)
                + waiting_budget(next, level));
            // What a nested lookup may cost is its first query and what is
            // left to it after.
            assert(below == r.root_hints.len() + r.max_hops + (r.max_hops + 1) * deeper) by {
                if level + 1 < r.max_depth {
                    assert(deeper == lookup_cost(
                        r.root_hints.len(),
                        r.max_hops,
                        (r.max_depth - level - 2) as nat,
                    ));
                } else {
                    assert(deeper == 0);
                    assert((r.max_hops + 1) * deeper == 0) by (nonlinear_arith)
                        requires
                            deeper == 0,
                    ;
                }
            }
            assert(top_budget(next) == below - 1);
            assert((left + 1) * below == left * below + below) by (nonlinear_arith);
            assert(left * (1 + below) == left + left * below) by (nonlinear_arith);
        }
    }
}

/// Handing a value to the lookup that waits for it spends budget.
proof fn lemma_deliver_spends(r: ResolverView, value: AnswerView)
    requires
        resolver_valid(r),
    ensures
        deliver(r, value) matches StepView::Send(next) ==> resolver_valid(next) && 0 <= budget(
            next,
        ) < budget(r),
{
    let level = r.stack.len() - 1;
    if r.stack.len() > 1 {
        if let AnswerView::Ipv4(address) = value {
            let popped = ResolverView { stack: r.stack.drop_last(), ..r };
            let parent = popped.stack.last();
            assert(parent == r.stack[level - 1]);
            assert forall|i: int| 0 <= i < popped.stack.len() implies (
            #[trigger] popped.stack[i]).hop_count <= popped.max_hops && popped.stack[i].root_index
                < popped.root_hints.len() by {
                assert(popped.stack[i] == r.stack[i]);
            }
            assert(resolver_valid(popped));
            lemma_redirect_spends(popped, address);
            if deliver(r, value) is Send {
                lemma_budgets_are_not_negative(r, level);
                lemma_waiting_budgets_frame(r, popped, level - 1);
                let left = r.max_hops - parent.hop_count;
                let below = nest_cost(r, level - 1);
                assert(nest_cost(popped, level - 1) == below);
                assert(waiting_budget(r, level - 1) == left * (1 + below));
                assert(waiting_budgets(r, level) == waiting_budgets(r, level - 1) + waiting_budget(
                    r,
                    level - 1,
                ));
                assert(left * (1 + below) == left + left * below) by (nonlinear_arith);
            }
        }
    }
}

/// Every query spends budget: a resolver that is in order and goes on after
/// an event is in order again, and has less budget left than before. So no
/// resolution goes on for ever, whatever the servers say.
pub proof fn lemma_every_query_spends_budget(r: ResolverView, event: Event)
    requires
        resolver_valid(r),
    ensures
        budget(r) >= 0,
        handle(r, event) matches StepView::Send(next) ==> resolver_valid(next) && 0 <= budget(
            next,
        ) < budget(r),
{
    lemma_budgets_are_not_negative(r, r.stack.len() - 1);
    match event {
        Event::Failure(failure) => {
            lemma_fail_spends(r, failure.spec_error());
        },
        Event::Response(response) => {
            if let Ok(m) = parse_message(response) {
                let lookup = r.stack.last();
                if !m.header.spec_is_truncated() {
                    match first_selected(m.answers, Some(lookup.target), lookup.query_type) {
                        Some(i) => {
                            lemma_deliver_spends(r, record_value(m.answers[i]));
                        },
                        None => match glue(m) {
                            Some(address) => {
                                lemma_redirect_spends(r, address);
                            },
                            None => match referred_name(m) {
                                Some(ns_name) => {
                                    lemma_descend_spends(r, ns_name);
                                },
                                None => {},
                            },
                        },
                    }
                }
            }
        },
    }
}

/// A resolution ends within its budget: once there are more events than the
/// budget of a resolver, the resolution is over after at most one query more
/// than the budget, the one under way included.
pub proof fn lemma_run_ends_within_budget(r: ResolverView, events: Seq<Event>)
    requires
        resolver_valid(r),
        events.len() > budget(r),
    ensures
        run(r, events) matches Some((_, queries)) && queries <= budget(r) + 1,
    decreases events.len(),
{
    lemma_every_query_spends_budget(r, events[0]);
    if let StepView::Send(next) = handle(r, events[0]) {
        lemma_run_ends_within_budget(next, events.drop_first());
    }
}

/// A resolution takes no more queries than a lookup at the top may cost:
/// the budget of a resolution that has just begun, and its first query, are
/// the cost of a lookup with the whole depth below it.
pub proof fn lemma_budget_at_the_start(
    root_hints: Seq<Seq<u8>>,
    max_hops: nat,
    max_depth: nat,
    name: Seq<char>,
    query_type: TypeField,
)
    requires
        root_hints.len() > 0,
    ensures
        begin(root_hints, max_hops, max_depth, name, query_type) matches StepView::Send(first)
            ==> resolver_valid(first) && budget(first) + 1 == lookup_cost(
            root_hints.len(),
            max_hops,
            max_depth,
        ),
{
    let lookup = LookupView {
        target: name,
        query_type,
        nameserver: root_hints[0],
        hop_count: 0,
        root_index: 0,
    };
    let first = ResolverView { root_hints, max_hops, max_depth, stack: seq![lookup] };
    assert(first.stack.last() == lookup);
    assert(waiting_budgets(first, 0) == 0);
    let nested = nest_cost(first, 0);
    if max_depth == 0 {
        assert((max_hops + 1) * nested == 0) by (nonlinear_arith)
            requires
                nested == 0,
        ;
    }
}

} // verus!

//! The message record: one queued message as the queue and the spool see it.

use vstd::prelude::*;

verus! {

/// Where a record stands in its queue.
#[derive(Clone, Copy, Debug, PartialEq, Eq, Structural)]
pub enum RecordState {
    /// Ready for an attempt.
    Queued,
    /// An attempt is running.
    InFlight,
    /// Waiting for its due time after a transient failure.
    Delayed,
    /// Failed for good. Terminal.
    Bounced,
    /// Handed over to the destination. Terminal.
    Delivered,
}

impl RecordState {
    /// The two states from which a record never moves again.
    pub open spec fn is_terminal(self) -> bool {
        self == RecordState::Bounced || self == RecordState::Delivered
    }

    /// Whether the record has reached one of the two final states.
    pub fn terminal(self) -> (t: bool)
        ensures
            t == self.is_terminal(),
    {
        match self {
            RecordState::Bounced => true,
            RecordState::Delivered => true,
            _ => false,
        }
    }
}

/// How the last failed attempt was classified.
#[derive(Clone, Copy, Debug, PartialEq, Eq, Structural)]
pub enum FailureClass {
    /// Worth another attempt later.
    Transient,
    /// No later attempt can succeed.
    Permanent,
}

/// Sender, recipient and, where one was set, the route that overrides the
/// recipient's domain.
#[derive(Debug)]
pub struct Envelope {
    pub sender: String,
    pub recipient: String,
    pub route: Option<String>,
}

/// An envelope as plain sequences of characters.
pub struct EnvelopeView {
    pub sender: Seq<char>,
    pub recipient: Seq<char>,
    pub route: Option<Seq<char>>,
}

/// The index just after the last `@` among the first `upto` characters of
/// `addr`, or zero where there is none.
pub open spec fn domain_start(addr: Seq<char>, upto: int) -> int
    decreases upto,
{
    if upto <= 0 {
        0
    } else if addr[upto - 1] == '@' {
        upto
    } else {
        domain_start(addr, upto - 1)
    }
}

/// The domain of an address: what follows its last `@`, or the whole address
/// where it has none.
pub open spec fn domain_of(addr: Seq<char>) -> Seq<char> {
    addr.subrange(domain_start(addr, addr.len() as int), addr.len() as int)
}

impl EnvelopeView {
    /// The routing key: the explicit route where one is set, else the
    /// recipient's domain.
    pub open spec fn routing_key(self) -> Seq<char> {
        match self.route {
            Some(k) => k,
            None => domain_of(self.recipient),
        }
    }
}

impl View for Envelope {
    type V = EnvelopeView;

    open spec fn view(&self) -> EnvelopeView {
        EnvelopeView {
            sender: self.sender@,
            recipient: self.recipient@,
            route: match self.route {
                Some(k) => Some(k@),
                None => None,
            },
        }
    }
}

/// The start of the domain lies within the prefix that was searched.
pub proof fn lemma_domain_start_in_range(addr: Seq<char>, upto: int)
    requires
        0 <= upto <= addr.len(),
    ensures
        0 <= domain_start(addr, upto) <= upto,
    decreases upto,
{
    if upto > 0 && addr[upto - 1] != '@' {
        lemma_domain_start_in_range(addr, upto - 1);
    }
}

/// Extracts the domain of an address.
pub fn domain_part(addr: &String) -> (domain: String)
    ensures
        domain@ == domain_of(addr@),
{
    let text = addr.as_str();
    let total: usize = text.unicode_len();
    let mut start: usize = 0;
    let mut pos: usize = 0;
    for c in it: text.chars()
        invariant
            total == text@.len(),
            it.seq() == text@,
            pos == it.index(),
            start == domain_start(text@, pos as int),
    {
        pos = pos + 1;
        if c == '@' {
            start = pos;
        }
    }
    proof {
        lemma_domain_start_in_range(text@, text@.len() as int);
    }
    text.substring_char(start, total).to_owned()
}

impl Envelope {
    /// An envelope without an explicit route.
    pub fn new(sender: String, recipient: String) -> (envelope: Self)
        ensures
            envelope@ == (EnvelopeView { sender: sender@, recipient: recipient@, route: None }),
    {
        Envelope { sender, recipient, route: None }
    }

    /// An envelope whose queue is named outright rather than derived from the
    /// recipient.
    pub fn with_route(sender: String, recipient: String, route: String) -> (envelope: Self)
        ensures
            envelope@ == (EnvelopeView {
                sender: sender@,
                recipient: recipient@,
                route: Some(route@),
            }),
    {
        Envelope { sender, recipient, route: Some(route) }
    }

    /// The key of the queue that this envelope belongs to. It depends on the
    /// envelope alone.
    pub fn routing_key(&self) -> (key: String)
        ensures
            key@ == self@.routing_key(),
    {
        match &self.route {
            Some(k) => k.clone(),
            None => domain_part(&self.recipient),
        }
    }

    /// A copy of the envelope.
    pub fn duplicate(&self) -> (copy: Self)
        ensures
            copy@ == self@,
    {
        let route: Option<String> = match &self.route {
            Some(k) => Some(k.clone()),
            None => None,
        };
        Envelope { sender: self.sender.clone(), recipient: self.recipient.clone(), route }
    }
}

/// One queued message.
#[derive(Debug)]
pub struct MessageRecord {
    /// Identifier, fixed for the lifetime of the message.
    pub id: u64,
    pub envelope: Envelope,
    /// Handle of the body in spool storage.
    pub body_ref: u64,
    /// No attempt starts before this time.
    pub due: u64,
    /// Number of attempts counted against the message so far.
    pub attempts: u32,
    /// Classification of the last failure, if there was one.
    pub last_error: Option<FailureClass>,
    pub state: RecordState,
}

/// A message record as plain values.
pub struct RecordView {
    pub id: u64,
    pub envelope: EnvelopeView,
    pub body_ref: u64,
    pub due: u64,
    pub attempts: u32,
    pub last_error: Option<FailureClass>,
    pub state: RecordState,
}

impl View for MessageRecord {
    type V = RecordView;

    open spec fn view(&self) -> RecordView {
        RecordView {
            id: self.id,
            envelope: self.envelope@,
            body_ref: self.body_ref,
            due: self.due,
            attempts: self.attempts,
            last_error: self.last_error,
            state: self.state,
        }
    }
}

/// The views of a sequence of records.
pub open spec fn views(records: Seq<MessageRecord>) -> Seq<RecordView> {
    records.map_values(|r: MessageRecord| r@)
}

impl RecordView {
    /// The key of the queue that owns the record.
    pub open spec fn routing_key(self) -> Seq<char> {
        self.envelope.routing_key()
    }

    /// Whether an attempt may start at `now`.
    pub open spec fn eligible(self, now: u64) -> bool {
        self.due <= now
    }
}

impl MessageRecord {
    /// A record for a message that was just accepted: no attempts yet, ready
    /// once `due` has come.
    pub fn new(id: u64, envelope: Envelope, due: u64) -> (record: Self)
        ensures
            record@ == (RecordView {
                id,
                envelope: envelope@,
                body_ref: id,
                due,
                attempts: 0,
                last_error: None,
                state: RecordState::Queued,
            }),
    {
        MessageRecord {
            id,
            envelope,
            body_ref: id,
            due,
            attempts: 0,
            last_error: None,
            state: RecordState::Queued,
        }
    }

    /// The key of the queue that owns the record.
    pub fn routing_key(&self) -> (key: String)
        ensures
            key@ == self@.routing_key(),
    {
        self.envelope.routing_key()
    }

    /// A copy of the record.
    pub fn duplicate(&self) -> (copy: Self)
        ensures
            copy@ == self@,
    {
        MessageRecord {
            id: self.id,
            envelope: self.envelope.duplicate(),
            body_ref: self.body_ref,
            due: self.due,
            attempts: self.attempts,
            last_error: self.last_error,
            state: self.state,
        }
    }
}

} // verus!

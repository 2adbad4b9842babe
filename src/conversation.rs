//! Conversations, and the merge of per-file conversations into one.
use vstd::prelude::*;

verus! {

/// One person of the conversation, identified by name.
#[derive(Clone, Debug, Eq, Hash)]
pub struct Participant {
    pub name: String,
}

impl PartialEq for Participant {
    fn eq(&self, other: &Participant) -> (r: bool) {
        self.name == other.name
    }
}

impl vstd::std_specs::cmp::PartialEqSpecImpl for Participant {
    open spec fn obeys_eq_spec() -> bool {
        true
    }

    open spec fn eq_spec(&self, other: &Participant) -> bool {
        self.name@ == other.name@
    }
}

/// One chat message; an empty `content` stands for non-text content.
#[derive(Clone, Debug)]
pub struct Message {
    pub sender_name: String,
    pub timestamp_ms: usize,
    pub content: String,
}

/// The participants and messages of one export file, or of the merged whole.
#[derive(Clone, Debug)]
pub struct ParsedConversation {
    pub participants: Vec<Participant>,
    pub messages: Vec<Message>,
}

/// The notice that the client appends for a recipient in quiet mode.
pub const QUIET_NOTICE: &'static str = " wasn't notified about this message because they're in quiet mode.";

/// Whether `text` ends with the quiet-mode notice.
pub open spec fn is_quiet_notice(text: Seq<char>) -> bool {
    let q = QUIET_NOTICE@;
    text.len() >= q.len() && text.subrange(text.len() - q.len(), text.len() as int) == q
}

/// Whether a message is authored text that the analysis keeps.
pub open spec fn keeps(m: Message) -> bool {
    m.content@.len() > 0 && !is_quiet_notice(m.content@)
}

/// The messages of `ms` that are kept, in their order.
pub open spec fn kept(ms: Seq<Message>) -> Seq<Message>
    decreases ms.len(),
{
    if ms.len() == 0 {
        ms
    } else if keeps(ms.last()) {
        kept(ms.drop_last()).push(ms.last())
    } else {
        kept(ms.drop_last())
    }
}

/// The messages of all conversations, one conversation after another.
pub open spec fn all_messages(cs: Seq<ParsedConversation>) -> Seq<Message>
    decreases cs.len(),
{
    if cs.len() == 0 {
        Seq::empty()
    } else {
        all_messages(cs.drop_last()) + cs.last().messages@
    }
}

/// The participants of all conversations, one conversation after another.
pub open spec fn all_participants(cs: Seq<ParsedConversation>) -> Seq<Participant>
    decreases cs.len(),
{
    if cs.len() == 0 {
        Seq::empty()
    } else {
        all_participants(cs.drop_last()) + cs.last().participants@
    }
}

/// Whether some participant of `ps` carries the name `name`.
pub open spec fn has_name(ps: Seq<Participant>, name: Seq<char>) -> bool {
    exists|k: int| 0 <= k < ps.len() && ps[k].name@ == name
}

/// The first participant of each name, in order of first appearance.
pub open spec fn distinct_by_name(ps: Seq<Participant>) -> Seq<Participant>
    decreases ps.len(),
{
    if ps.len() == 0 {
        ps
    } else {
        let u = distinct_by_name(ps.drop_last());
        if has_name(u, ps.last().name@) {
            u
        } else {
            u.push(ps.last())
        }
    }
}

/// `m` inserted into `s` after the last message whose timestamp is not later.
pub open spec fn insert_by_time(s: Seq<Message>, m: Message) -> Seq<Message>
    decreases s.len(),
{
    if s.len() == 0 {
        seq![m]
    } else if s.last().timestamp_ms <= m.timestamp_ms {
        s.push(m)
    } else {
        insert_by_time(s.drop_last(), m).push(s.last())
    }
}

/// The stable sort of `s` by timestamp: equal timestamps keep their order.
pub open spec fn sort_by_time(s: Seq<Message>) -> Seq<Message>
    decreases s.len(),
{
    if s.len() == 0 {
        s
    } else {
        insert_by_time(sort_by_time(s.drop_last()), s.last())
    }
}

/// Whether the timestamps of `s` never decrease.
pub open spec fn time_ordered(s: Seq<Message>) -> bool {
    forall|i: int, j: int| 0 <= i <= j < s.len() ==> s[i].timestamp_ms <= s[j].timestamp_ms
}

/// The messages of `s` sent by the participant named `name`, in order.
pub open spec fn sent_by(s: Seq<Message>, name: Seq<char>) -> Seq<Message>
    decreases s.len(),
{
    if s.len() == 0 {
        s
    } else if s.last().sender_name@ == name {
        sent_by(s.drop_last(), name).push(s.last())
    } else {
        sent_by(s.drop_last(), name)
    }
}

proof fn lemma_insert_at(s: Seq<Message>, m: Message, j: int)
    requires
        0 <= j <= s.len(),
        j == 0 || s[j - 1].timestamp_ms <= m.timestamp_ms,
        forall|k: int| j <= k < s.len() ==> s[k].timestamp_ms > m.timestamp_ms,
    ensures
        insert_by_time(s, m) == s.insert(j, m),
    decreases s.len(),
{
    if s.len() == 0 {
        assert(s.insert(j, m) =~= seq![m]);
    } else if j == s.len() {
        assert(s.insert(j, m) =~= s.push(m));
    } else {
        lemma_insert_at(s.drop_last(), m, j);
        assert(s.drop_last().insert(j, m).push(s.last()) =~= s.insert(j, m));
    }
}

proof fn lemma_insert_by_time(s: Seq<Message>, m: Message)
    ensures
        time_ordered(s) ==> time_ordered(insert_by_time(s, m)),
        forall|i: int|
            0 <= i < insert_by_time(s, m).len() ==> #[trigger] insert_by_time(s, m)[i] == m
                || s.contains(insert_by_time(s, m)[i]),
        insert_by_time(s, m).len() == s.len() + 1,
    decreases s.len(),
{
    if s.len() > 0 && s.last().timestamp_ms > m.timestamp_ms {
        let t = s.drop_last();
        lemma_insert_by_time(t, m);
        let r = insert_by_time(s, m);
        assert forall|i: int| 0 <= i < r.len() implies #[trigger] r[i] == m || s.contains(r[i]) by {
            if i == r.len() - 1 {
                assert(s[s.len() - 1] == r[i]);
            } else {
                let x = insert_by_time(t, m)[i];
                if x != m {
                    let k = choose|k: int| 0 <= k < t.len() && t[k] == x;
                    assert(s[k] == x);
                }
            }
        }
        if time_ordered(s) {
            assert(time_ordered(t));
            let it = insert_by_time(t, m);
            assert forall|i: int| 0 <= i < it.len() implies #[trigger] it[i].timestamp_ms
                <= s.last().timestamp_ms by {
                if it[i] != m {
                    let k = choose|k: int| 0 <= k < t.len() && t[k] == it[i];
                    assert(s[k] == t[k]);
                }
            }
        }
    } else if s.len() > 0 {
        let r = insert_by_time(s, m);
        assert forall|i: int| 0 <= i < r.len() implies #[trigger] r[i] == m || s.contains(r[i]) by {
            if i < s.len() {
                assert(s[i] == r[i]);
            }
        }
    }
}

/// The stable sort by time orders its result by time, and every message of
/// the result comes from its input.
pub proof fn lemma_sort_by_time(s: Seq<Message>)
    ensures
        time_ordered(sort_by_time(s)),
        sort_by_time(s).len() == s.len(),
        forall|i: int| 0 <= i < s.len() ==> s.contains(#[trigger] sort_by_time(s)[i]),
    decreases s.len(),
{
    if s.len() > 0 {
        let t = s.drop_last();
        lemma_sort_by_time(t);
        let st = sort_by_time(t);
        lemma_insert_by_time(st, s.last());
        let r = sort_by_time(s);
        assert forall|i: int| 0 <= i < s.len() implies s.contains(#[trigger] r[i]) by {
            if r[i] != s.last() {
                let k = choose|k: int| 0 <= k < st.len() && st[k] == r[i];
                let k2 = choose|k2: int| 0 <= k2 < t.len() && t[k2] == st[k];
                assert(s[k2] == r[i]);
            } else {
                assert(s[s.len() - 1] == r[i]);
            }
        }
    }
}

/// Every message that `kept` returns is kept.
pub proof fn lemma_kept(ms: Seq<Message>)
    ensures
        forall|i: int| 0 <= i < kept(ms).len() ==> keeps(#[trigger] kept(ms)[i]),
    decreases ms.len(),
{
    if ms.len() > 0 {
        let t = ms.drop_last();
        lemma_kept(t);
        assert forall|i: int| 0 <= i < kept(ms).len() implies keeps(#[trigger] kept(ms)[i]) by {
            if i < kept(t).len() {
                assert(kept(ms)[i] == kept(t)[i]);
            }
        }
    }
}

/// Distinct names, and the same names as the input.
pub proof fn lemma_distinct_by_name(ps: Seq<Participant>)
    ensures
        forall|i: int, j: int|
            0 <= i < j < distinct_by_name(ps).len() ==> (#[trigger] distinct_by_name(ps)[i]).name@
                != (#[trigger] distinct_by_name(ps)[j]).name@,
        forall|k: int| 0 <= k < ps.len() ==> has_name(distinct_by_name(ps), (#[trigger] ps[k]).name@),
        forall|i: int| 0 <= i < distinct_by_name(ps).len() ==> ps.contains(#[trigger] distinct_by_name(ps)[i]),
    decreases ps.len(),
{
    if ps.len() > 0 {
        let t = ps.drop_last();
        lemma_distinct_by_name(t);
        let u = distinct_by_name(t);
        let r = distinct_by_name(ps);
        assert forall|k: int| 0 <= k < ps.len() implies has_name(r, (#[trigger] ps[k]).name@) by {
            if k < t.len() {
                assert(ps[k] == t[k]);
                let q = choose|q: int| 0 <= q < u.len() && u[q].name@ == t[k].name@;
                assert(r[q] == u[q]);
            } else if !has_name(u, ps.last().name@) {
                assert(r[u.len() as int] == ps.last());
            }
        }
        assert forall|i: int| 0 <= i < r.len() implies ps.contains(#[trigger] r[i]) by {
            if i < u.len() {
                assert(r[i] == u[i]);
                let q = choose|q: int| 0 <= q < t.len() && t[q] == u[i];
                assert(ps[q] == t[q]);
            } else {
                assert(ps[ps.len() - 1] == r[i]);
            }
        }
        if !has_name(u, ps.last().name@) {
            assert forall|i: int, j: int|
                0 <= i < j < r.len() implies (#[trigger] r[i]).name@ != (#[trigger] r[j]).name@ by {
                if j == u.len() {
                    assert(r[i] == u[i]);
                } else {
                    assert(r[i] == u[i]);
                    assert(r[j] == u[j]);
                }
            }
        }
    }
}

/// The merged conversation has its messages in time order, none of them
/// empty or a quiet-mode notice, and one participant for each name that
/// occurs among the inputs' participants, each of them one of those.
pub proof fn lemma_merge_normalises(conversations: Seq<ParsedConversation>)
    ensures
        time_ordered(sort_by_time(kept(all_messages(conversations)))),
        forall|i: int|
            0 <= i < sort_by_time(kept(all_messages(conversations))).len() ==> {
                let m = #[trigger] sort_by_time(kept(all_messages(conversations)))[i];
                m.content@.len() > 0 && !is_quiet_notice(m.content@)
            },
        forall|i: int, j: int|
            0 <= i < j < distinct_by_name(all_participants(conversations)).len() ==> (
            #[trigger] distinct_by_name(all_participants(conversations))[i]).name@ != (
            #[trigger] distinct_by_name(all_participants(conversations))[j]).name@,
        forall|k: int|
            0 <= k < all_participants(conversations).len() ==> has_name(
                distinct_by_name(all_participants(conversations)),
                (#[trigger] all_participants(conversations)[k]).name@,
            ),
        forall|i: int|
            0 <= i < distinct_by_name(all_participants(conversations)).len() ==> all_participants(
                conversations,
            ).contains(#[trigger] distinct_by_name(all_participants(conversations))[i]),
{
    let ks = kept(all_messages(conversations));
    lemma_kept(all_messages(conversations));
    lemma_sort_by_time(ks);
    let s = sort_by_time(ks);
    assert forall|i: int| 0 <= i < s.len() implies {
        let m = #[trigger] s[i];
        m.content@.len() > 0 && !is_quiet_notice(m.content@)
    } by {
        assert(ks.contains(s[i]));
        let q = choose|q: int| 0 <= q < ks.len() && ks[q] == s[i];
        assert(keeps(ks[q]));
    }
    lemma_distinct_by_name(all_participants(conversations));
}

fn copy_message(m: &Message) -> (r: Message)
    ensures
        r == *m,
{
    Message {
        sender_name: m.sender_name.clone(),
        timestamp_ms: m.timestamp_ms,
        content: m.content.clone(),
    }
}

fn copy_participant(p: &Participant) -> (r: Participant)
    ensures
        r == *p,
{
    Participant { name: p.name.clone() }
}

/// Whether `text` ends with the quiet-mode notice.
pub fn ends_with_quiet_notice(text: &String) -> (r: bool)
    ensures
        r == is_quiet_notice(text@),
{
    let s = text.as_str();
    let q = QUIET_NOTICE;
    let n = s.unicode_len();
    let m = q.unicode_len();
    if n < m {
        return false;
    }
    let mut k: usize = 0;
    while k < m
        invariant
            n == s@.len(),
            m == q@.len(),
            m <= n,
            s@ == text@,
            q@ == QUIET_NOTICE@,
            k <= m,
            forall|j: int| 0 <= j < k ==> s@[n - m + j] == q@[j],
        decreases m - k,
    {
        if s.get_char(n - m + k) != q.get_char(k) {
            assert(text@.subrange(n - m, n as int)[k as int] != q@[k as int]);
            return false;
        }
        k = k + 1;
    }
    assert(text@.subrange(n - m, n as int) =~= QUIET_NOTICE@);
    true
}

fn contains_name(ps: &Vec<Participant>, name: &String) -> (r: bool)
    ensures
        r == has_name(ps@, name@),
{
    let mut k: usize = 0;
    while k < ps.len()
        invariant
            k <= ps@.len(),
            forall|j: int| 0 <= j < k ==> ps@[j].name@ != name@,
        decreases ps@.len() - k,
    {
        if ps[k].name == *name {
            return true;
        }
        k = k + 1;
    }
    false
}

impl ParsedConversation {
    /// Pairs each participant, in order, with the messages that they sent,
    /// in the conversation's order.
    pub fn messages_by_sender(&self) -> (r: Vec<(Participant, Vec<Message>)>)
        ensures
            r@.len() == self.participants@.len(),
            forall|i: int|
                0 <= i < r@.len() ==> (#[trigger] r@[i]).0 == self.participants@[i] && r@[i].1@
                    == sent_by(self.messages@, self.participants@[i].name@),
    {
        let mut r: Vec<(Participant, Vec<Message>)> = Vec::new();
        let mut i: usize = 0;
        while i < self.participants.len()
            invariant
                i <= self.participants@.len(),
                r@.len() == i,
                forall|k: int|
                    0 <= k < i ==> (#[trigger] r@[k]).0 == self.participants@[k] && r@[k].1@
                        == sent_by(self.messages@, self.participants@[k].name@),
            decreases self.participants@.len() - i,
        {
            let p = &self.participants[i];
            let mut own: Vec<Message> = Vec::new();
            let mut j: usize = 0;
            proof {
                assert(self.messages@.take(0) =~= Seq::<Message>::empty());
            }
            while j < self.messages.len()
                invariant
                    j <= self.messages@.len(),
                    own@ == sent_by(self.messages@.take(j as int), p.name@),
                decreases self.messages@.len() - j,
            {
                let m = &self.messages[j];
                proof {
                    assert(self.messages@.take(j + 1).drop_last() =~= self.messages@.take(j as int));
                    assert(self.messages@.take(j + 1).last() == *m);
                }
                if m.sender_name == p.name {
                    own.push(copy_message(m));
                }
                j = j + 1;
            }
            proof {
                assert(self.messages@.take(j as int) =~= self.messages@);
            }
            r.push((copy_participant(p), own));
            i = i + 1;
        }
        r
    }

    /// Combines per-file conversations: the participants of all of them, one
    /// per name, and their messages without empty ones and quiet-mode
    /// notices, stably sorted by timestamp.
    pub fn merge(conversations: &[Self]) -> (r: Self)
        ensures
            r.participants@ == distinct_by_name(all_participants(conversations@)),
            r.messages@ == sort_by_time(kept(all_messages(conversations@))),
    {
        let ghost cs = conversations@;
        let mut participants: Vec<Participant> = Vec::new();
        let mut messages: Vec<Message> = Vec::new();
        let mut i: usize = 0;
        proof {
            assert(cs.take(0) =~= Seq::<ParsedConversation>::empty());
        }
        while i < conversations.len()
            invariant
                cs == conversations@,
                i <= cs.len(),
                participants@ == distinct_by_name(all_participants(cs.take(i as int))),
                messages@ == kept(all_messages(cs.take(i as int))),
            decreases cs.len() - i,
        {
            let c = &conversations[i];
            let ghost before_p = all_participants(cs.take(i as int));
            let ghost before_m = all_messages(cs.take(i as int));
            let mut j: usize = 0;
            proof {
                assert(before_p + c.participants@.take(0) =~= before_p);
            }
            while j < c.participants.len()
                invariant
                    j <= c.participants@.len(),
                    participants@ == distinct_by_name(before_p + c.participants@.take(j as int)),
                decreases c.participants@.len() - j,
            {
                let p = &c.participants[j];
                let ghost ext = before_p + c.participants@.take(j + 1);
                proof {
                    assert(ext.drop_last() =~= before_p + c.participants@.take(j as int));
                    assert(ext.last() == *p);
                }
                if !contains_name(&participants, &p.name) {
                    participants.push(copy_participant(p));
                }
                j = j + 1;
            }
            proof {
                assert(before_p + c.participants@.take(j as int) =~= before_p + c.participants@);
            }
            let mut j: usize = 0;
            proof {
                assert(before_m + c.messages@.take(0) =~= before_m);
            }
            while j < c.messages.len()
                invariant
                    j <= c.messages@.len(),
                    messages@ == kept(before_m + c.messages@.take(j as int)),
                decreases c.messages@.len() - j,
            {
                let m = &c.messages[j];
                let ghost ext = before_m + c.messages@.take(j + 1);
                proof {
                    assert(ext.drop_last() =~= before_m + c.messages@.take(j as int));
                    assert(ext.last() == *m);
                }
                if !m.content.as_str().is_empty() && !ends_with_quiet_notice(&m.content) {
                    messages.push(copy_message(m));
                }
                j = j + 1;
            }
            proof {
                assert(before_m + c.messages@.take(j as int) =~= before_m + c.messages@);
                assert(cs.take(i + 1).drop_last() =~= cs.take(i as int));
                assert(cs.take(i + 1).last() == *c);
            }
            i = i + 1;
        }
        proof {
            assert(cs.take(i as int) =~= cs);
        }
        let mut sorted: Vec<Message> = Vec::new();
        let mut i: usize = 0;
        proof {
            assert(messages@.take(0) =~= Seq::<Message>::empty());
        }
        while i < messages.len()
            invariant
                i <= messages@.len(),
                sorted@ == sort_by_time(messages@.take(i as int)),
            decreases messages@.len() - i,
        {
            let m = copy_message(&messages[i]);
            let mut j: usize = sorted.len();
            while j > 0 && sorted[j - 1].timestamp_ms > m.timestamp_ms
                invariant
                    j <= sorted@.len(),
                    forall|k: int| j <= k < sorted@.len() ==> sorted@[k].timestamp_ms > m.timestamp_ms,
                decreases j,
            {
                j = j - 1;
            }
            proof {
                lemma_insert_at(sorted@, m, j as int);
                assert(messages@.take(i + 1).drop_last() =~= messages@.take(i as int));
            }
            sorted.insert(j, m);
            i = i + 1;
        }
        proof {
            assert(messages@.take(i as int) =~= messages@);
        }
        ParsedConversation { participants, messages: sorted }
    }
}

} // verus!

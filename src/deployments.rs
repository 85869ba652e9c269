use vstd::prelude::*;
use vstd::string::StringExecFns;

use crate::text::{
    all_alphanumeric, any_uppercase, chars_of, find_first, first_index, lemma_first_index,
    range_all_alphanumeric, range_any_uppercase, same_text,
};

verus! {

/// What `string_member` finds under `key` in the JSON text `text`: the
/// member's text where `text` is one JSON object whose member `key` is a
/// string, `None` otherwise.
pub uninterp spec fn json_string_member(text: Seq<char>, key: Seq<char>) -> Option<Seq<char>>;

/// Relies on `serde_json::from_str` (decoding `text` as a `serde_json::Value`),
/// `serde_json::Value::get` (the member named `key` of an object, `None` for
/// any other value) and `serde_json::Value::as_str` (the text of a JSON
/// string). The result depends on `text` and `key` alone. An object that
/// names a member twice keeps the last one.
#[verifier::external_body]
fn string_member(text: &str, key: &str) -> (r: Option<String>)
    ensures
        r is Some <==> json_string_member(text@, key@) is Some,
        r is Some ==> json_string_member(text@, key@) == Some(r->0@),
{
    serde_json::from_str::<serde_json::Value>(text).ok().and_then(
        |v| v.get(key).and_then(|m| m.as_str().map(String::from)),
    )
}

/// What a record's JSON text decodes to: its `deployment_id` and `status`
/// where both are string members of one JSON object, `None` otherwise.
pub open spec fn decoded(text: Seq<char>) -> Option<(Seq<char>, Seq<char>)> {
    match (json_string_member(text, "deployment_id"@), json_string_member(text, "status"@)) {
        (Some(id), Some(status)) => Some((id, status)),
        _ => None,
    }
}

/// A decoded deployment record.
#[derive(Debug, Clone, PartialEq, Eq)]
pub struct Deployment {
    pub deployment_id: String,
    pub status: String,
}

impl View for Deployment {
    type V = (Seq<char>, Seq<char>);

    open spec fn view(&self) -> (Seq<char>, Seq<char>) {
        (self.deployment_id@, self.status@)
    }
}

/// The model of a record that may have failed to decode.
pub open spec fn record_view(record: Option<Deployment>) -> Option<(Seq<char>, Seq<char>)> {
    match record {
        Some(d) => Some(d@),
        None => None,
    }
}

/// Why a record counts as an error.
#[derive(Debug, Clone, Copy, PartialEq, Eq, Structural)]
pub enum Rejection {
    /// The text is not an object with string members `deployment_id` and `status`.
    Undecodable,
    /// The `deployment_id` holds no `-`.
    MissingSeparator,
    /// The part before the first `-` is not `d`.
    InvalidPrefix,
    /// The suffix is not ten characters long.
    SuffixLength,
    /// The suffix holds a character that is neither a letter nor a digit.
    SuffixSpecialCharacters,
    /// The suffix holds an uppercase letter.
    SuffixUppercase,
    /// The status is neither `Success` nor `Fail`.
    UnknownStatus,
}

/// The text that describes each rejection.
pub open spec fn rejection_message(r: Rejection) -> Seq<char> {
    match r {
        Rejection::Undecodable => "deployment record could not be decoded"@,
        Rejection::MissingSeparator => "deployment_id has no separator"@,
        Rejection::InvalidPrefix => "invalid deployment_id prefix"@,
        Rejection::SuffixLength => "deployment_id suffix length is not 10"@,
        Rejection::SuffixSpecialCharacters => "deployment_id suffix has special characters"@,
        Rejection::SuffixUppercase => "deployment_id suffix has uppercase"@,
        Rejection::UnknownStatus => "unknown deployment status"@,
    }
}

impl Rejection {
    /// The human-readable text of this rejection.
    pub fn message(&self) -> (r: String)
        ensures
            r@ == rejection_message(*self),
    {
        match self {
            Rejection::Undecodable => String::from_str("deployment record could not be decoded"),
            Rejection::MissingSeparator => String::from_str("deployment_id has no separator"),
            Rejection::InvalidPrefix => String::from_str("invalid deployment_id prefix"),
            Rejection::SuffixLength => String::from_str("deployment_id suffix length is not 10"),
            Rejection::SuffixSpecialCharacters => String::from_str(
                "deployment_id suffix has special characters",
            ),
            Rejection::SuffixUppercase => String::from_str("deployment_id suffix has uppercase"),
            Rejection::UnknownStatus => String::from_str("unknown deployment status"),
        }
    }
}

/// The bucket that one record falls in.
#[derive(Debug, Clone, Copy, PartialEq, Eq, Structural)]
pub enum Outcome {
    Success,
    Fail,
    Error(Rejection),
}

/// `id` cut at its first `-` into a prefix and a suffix (everything after
/// that `-`), where it holds a `-`.
pub open spec fn id_parts(id: Seq<char>) -> Option<(Seq<char>, Seq<char>)> {
    let p = first_index(id, '-');
    if p < id.len() {
        Some((id.take(p as int), id.skip((p + 1) as int)))
    } else {
        None
    }
}

/// The outcome of a decoded record; the first rule that fails decides.
pub open spec fn classify_spec(id: Seq<char>, status: Seq<char>) -> Outcome {
    match id_parts(id) {
        None => Outcome::Error(Rejection::MissingSeparator),
        Some((prefix, suffix)) => {
            if prefix != "d"@ {
                Outcome::Error(Rejection::InvalidPrefix)
            } else if suffix.len() != 10 {
                Outcome::Error(Rejection::SuffixLength)
            } else if !all_alphanumeric(suffix) {
                Outcome::Error(Rejection::SuffixSpecialCharacters)
            } else if any_uppercase(suffix) {
                Outcome::Error(Rejection::SuffixUppercase)
            } else if status == "Success"@ {
                Outcome::Success
            } else if status == "Fail"@ {
                Outcome::Fail
            } else {
                Outcome::Error(Rejection::UnknownStatus)
            }
        },
    }
}

/// The outcome of a record, `None` standing for one that did not decode.
pub open spec fn record_outcome(record: Option<(Seq<char>, Seq<char>)>) -> Outcome {
    match record {
        None => Outcome::Error(Rejection::Undecodable),
        Some((id, status)) => classify_spec(id, status),
    }
}

/// The outcomes of a sequence of records, in order.
pub open spec fn outcomes(records: Seq<Option<(Seq<char>, Seq<char>)>>) -> Seq<Outcome> {
    records.map_values(|r: Option<(Seq<char>, Seq<char>)>| record_outcome(r))
}

/// Counts `(success, fail, error)` after one more outcome.
pub open spec fn count_step(t: (nat, nat, nat), o: Outcome) -> (nat, nat, nat) {
    match o {
        Outcome::Success => (t.0 + 1, t.1, t.2),
        Outcome::Fail => (t.0, t.1 + 1, t.2),
        Outcome::Error(_) => (t.0, t.1, t.2 + 1),
    }
}

/// Counts `(success, fail, error)` of a sequence of outcomes.
pub open spec fn count_spec(outs: Seq<Outcome>) -> (nat, nat, nat)
    decreases outs.len(),
{
    if outs.len() == 0 {
        (0, 0, 0)
    } else {
        count_step(count_spec(outs.drop_last()), outs.last())
    }
}

/// The three running counters of a batch.
#[derive(Debug, Clone, Copy, PartialEq, Eq, Structural)]
pub struct Tally {
    pub success: usize,
    pub fail: usize,
    pub error: usize,
}

impl View for Tally {
    type V = (nat, nat, nat);

    open spec fn view(&self) -> (nat, nat, nat) {
        (self.success as nat, self.fail as nat, self.error as nat)
    }
}

impl Tally {
    /// A tally with every counter at zero.
    pub fn new() -> (r: Tally)
        ensures
            r@ == (0nat, 0nat, 0nat),
    {
        Tally { success: 0, fail: 0, error: 0 }
    }

    /// How many outcomes have been counted.
    pub open spec fn total_spec(&self) -> nat {
        (self.success + self.fail + self.error) as nat
    }

    /// Counts one more outcome in its bucket.
    pub fn record(&mut self, o: Outcome)
        requires
            old(self).total_spec() < usize::MAX,
        ensures
            final(self)@ == count_step(old(self)@, o),
    {
        match o {
            Outcome::Success => self.success = self.success + 1,
            Outcome::Fail => self.fail = self.fail + 1,
            Outcome::Error(_) => self.error = self.error + 1,
        }
    }
}

/// Classifies a decoded record by its `deployment_id` and `status`.
pub fn classify(deployment_id: &str, status: &str) -> (o: Outcome)
    ensures
        o == classify_spec(deployment_id@, status@),
{
    let chars = chars_of(deployment_id);
    let n = chars.len();
    let p = find_first(&chars, '-');
    if p == n {
        return Outcome::Error(Rejection::MissingSeparator);
    }
    let ghost prefix = chars@.take(p as int);
    proof {
        reveal_strlit("d");
    }
    if !(p == 1 && chars[0] == 'd') {
        assert(prefix.len() != 1 || prefix[0] != 'd');
        return Outcome::Error(Rejection::InvalidPrefix);
    }
    assert(prefix =~= "d"@);
    assert(chars@.skip(p + 1) =~= chars@.subrange(p + 1, n as int));
    if n - (p + 1) != 10 {
        return Outcome::Error(Rejection::SuffixLength);
    }
    if !range_all_alphanumeric(&chars, p + 1, n) {
        return Outcome::Error(Rejection::SuffixSpecialCharacters);
    }
    if range_any_uppercase(&chars, p + 1, n) {
        return Outcome::Error(Rejection::SuffixUppercase);
    }
    if same_text(status, "Success") {
        Outcome::Success
    } else if same_text(status, "Fail") {
        Outcome::Fail
    } else {
        Outcome::Error(Rejection::UnknownStatus)
    }
}

/// Classifies a record, `None` standing for one that did not decode.
pub fn classify_record(record: &Option<Deployment>) -> (o: Outcome)
    ensures
        o == record_outcome(record_view(*record)),
{
    match record {
        None => Outcome::Error(Rejection::Undecodable),
        Some(d) => classify(d.deployment_id.as_str(), d.status.as_str()),
    }
}

/// Tallies a batch of records, `None` standing for one that did not decode.
pub fn evaluate(records: &Vec<Option<Deployment>>) -> (t: Tally)
    ensures
        t@ == count_spec(outcomes(records@.map_values(|r: Option<Deployment>| record_view(r)))),
{
    let ghost views = records@.map_values(|r: Option<Deployment>| record_view(r));
    let mut t = Tally::new();
    let mut i: usize = 0;
    while i < records.len()
        invariant
            i <= records@.len(),
            views == records@.map_values(|r: Option<Deployment>| record_view(r)),
            t@ == count_spec(outcomes(views.take(i as int))),
            t.total_spec() == i,
        decreases records@.len() - i,
    {
        let o = classify_record(&records[i]);
        proof {
            lemma_count_total(outcomes(views.take(i as int)));
        }
        t.record(o);
        i += 1;
        assert(outcomes(views.take(i as int)).drop_last() =~= outcomes(views.take(i - 1)));
    }
    assert(views.take(i as int) =~= views);
    t
}

/// Counts `(success, fail, error)` of records given as JSON texts.
pub open spec fn text_counts(texts: Seq<Seq<char>>) -> (nat, nat, nat) {
    count_spec(outcomes(texts.map_values(|t: Seq<char>| decoded(t))))
}

/// Decodes one record from its JSON text: an object whose members
/// `deployment_id` and `status` are strings; `None` for any other text.
pub fn decode_record(text: &str) -> (r: Option<Deployment>)
    ensures
        record_view(r) == decoded(text@),
{
    let id = string_member(text, "deployment_id");
    let status = string_member(text, "status");
    match (id, status) {
        (Some(deployment_id), Some(status)) => Some(Deployment { deployment_id, status }),
        _ => None,
    }
}

/// Counts `(success, fail, error)` over records given as JSON texts: each
/// text is decoded by `decode_record`, then classified.
pub fn evaluate_deployments(deployments: &[String]) -> (r: Vec<i32>)
    requires
        deployments@.len() <= i32::MAX,
    ensures
        r@.len() == 3,
        r@[0] >= 0 && r@[1] >= 0 && r@[2] >= 0,
        (r@[0] as nat, r@[1] as nat, r@[2] as nat) == text_counts(
            deployments@.map_values(|t: String| t@),
        ),
{
    let ghost texts = deployments@.map_values(|t: String| decoded(t@));
    assert(deployments@.map_values(|t: String| t@).map_values(|t: Seq<char>| decoded(t))
        =~= texts);
    let mut records: Vec<Option<Deployment>> = Vec::new();
    let mut i: usize = 0;
    while i < deployments.len()
        invariant
            i <= deployments@.len(),
            texts == deployments@.map_values(|t: String| decoded(t@)),
            records@.len() == i,
            forall|j: int| 0 <= j < i ==> record_view(#[trigger] records@[j]) == texts[j],
        decreases deployments@.len() - i,
    {
        let record = decode_record(deployments[i].as_str());
        records.push(record);
        i += 1;
    }
    assert(records@.map_values(|r: Option<Deployment>| record_view(r)) =~= texts);
    let t = evaluate(&records);
    proof {
        lemma_count_total(outcomes(texts));
    }
    let r = vec![t.success as i32, t.fail as i32, t.error as i32];
    r
}

/// The three counters always add up to the number of outcomes counted, on
/// every prefix of the input.
pub proof fn lemma_count_total(outs: Seq<Outcome>)
    ensures
        count_spec(outs).0 + count_spec(outs).1 + count_spec(outs).2 == outs.len(),
        forall|k: int|
            0 <= k <= outs.len() ==> #[trigger] count_spec(outs.take(k)).0 + count_spec(
                outs.take(k),
            ).1 + count_spec(outs.take(k)).2 == k,
    decreases outs.len(),
{
    if outs.len() > 0 {
        lemma_count_total(outs.drop_last());
        assert forall|k: int| 0 <= k <= outs.len() implies #[trigger] count_spec(outs.take(k)).0
            + count_spec(outs.take(k)).1 + count_spec(outs.take(k)).2 == k by {
            if k < outs.len() {
                assert(outs.take(k) =~= outs.drop_last().take(k));
            } else {
                assert(outs.take(k) =~= outs);
            }
        }
    } else {
        assert forall|k: int| 0 <= k <= outs.len() implies #[trigger] count_spec(outs.take(k)).0
            + count_spec(outs.take(k)).1 + count_spec(outs.take(k)).2 == k by {
            assert(outs.take(k) =~= outs);
        }
    }
}

/// A decoded record whose id is `d-` and ten alphanumeric characters, none of
/// them uppercase, and whose status is `Success` or `Fail` adds one to that
/// counter and leaves the other two as they were.
proof fn lemma_valid_record_counted(outs: Seq<Outcome>, suffix: Seq<char>, status: Seq<char>)
    requires
        suffix.len() == 10,
        all_alphanumeric(suffix),
        !any_uppercase(suffix),
        status == "Success"@ || status == "Fail"@,
    ensures
        status == "Success"@ ==> count_spec(outs.push(record_outcome(Some(("d-"@ + suffix, status)))))
            == (count_spec(outs).0 + 1, count_spec(outs).1, count_spec(outs).2),
        status == "Fail"@ ==> count_spec(outs.push(record_outcome(Some(("d-"@ + suffix, status)))))
            == (count_spec(outs).0, count_spec(outs).1 + 1, count_spec(outs).2),
{
    reveal_strlit("d-");
    reveal_strlit("d");
    reveal_strlit("Success");
    reveal_strlit("Fail");
    let head = "d-"@;
    let id = head + suffix;
    assert(id[0] == 'd' && id[1] == '-');
    lemma_first_index(id, '-', 1);
    assert(id.take(1) =~= "d"@);
    assert(id.skip(2) =~= suffix);
    assert("Success"@ != "Fail"@) by {
        assert("Success"@.len() != "Fail"@.len());
    }
    let o = record_outcome(Some((head + suffix, status)));
    assert(outs.push(o).drop_last() =~= outs);
}

/// A record that does not decode or breaks a rule adds one to `error` and
/// leaves the other two counters as they were.
proof fn lemma_rejected_record_counted(
    outs: Seq<Outcome>,
    record: Option<(Seq<char>, Seq<char>)>,
)
    requires
        record_outcome(record) is Error,
    ensures
        count_spec(outs.push(record_outcome(record))) == (
            count_spec(outs).0,
            count_spec(outs).1,
            count_spec(outs).2 + 1,
        ),
{
    assert(outs.push(record_outcome(record)).drop_last() =~= outs);
}

/// The decoded records of `texts` followed by `text`.
proof fn lemma_outcomes_push(texts: Seq<Seq<char>>, text: Seq<char>)
    ensures
        outcomes(texts.push(text).map_values(|t: Seq<char>| decoded(t))) == outcomes(
            texts.map_values(|t: Seq<char>| decoded(t)),
        ).push(record_outcome(decoded(text))),
{
    assert(outcomes(texts.push(text).map_values(|t: Seq<char>| decoded(t))) =~= outcomes(
        texts.map_values(|t: Seq<char>| decoded(t)),
    ).push(record_outcome(decoded(text))));
}

/// Appending the JSON text of a record whose id is `d-` and ten alphanumeric
/// characters, none of them uppercase, and whose status is `Success` or
/// `Fail`, adds one to that counter and leaves the other two as they were.
pub proof fn lemma_valid_text_counted(
    texts: Seq<Seq<char>>,
    text: Seq<char>,
    suffix: Seq<char>,
    status: Seq<char>,
)
    requires
        decoded(text) == Some(("d-"@ + suffix, status)),
        suffix.len() == 10,
        all_alphanumeric(suffix),
        !any_uppercase(suffix),
        status == "Success"@ || status == "Fail"@,
    ensures
        status == "Success"@ ==> text_counts(texts.push(text)) == (
            text_counts(texts).0 + 1,
            text_counts(texts).1,
            text_counts(texts).2,
        ),
        status == "Fail"@ ==> text_counts(texts.push(text)) == (
            text_counts(texts).0,
            text_counts(texts).1 + 1,
            text_counts(texts).2,
        ),
{
    lemma_outcomes_push(texts, text);
    lemma_valid_record_counted(
        outcomes(texts.map_values(|t: Seq<char>| decoded(t))),
        suffix,
        status,
    );
}

/// Appending the JSON text of a record that does not decode or breaks a rule
/// adds one to `error` and leaves the other two counters as they were.
pub proof fn lemma_rejected_text_counted(texts: Seq<Seq<char>>, text: Seq<char>)
    requires
        record_outcome(decoded(text)) is Error,
    ensures
        text_counts(texts.push(text)) == (
            text_counts(texts).0,
            text_counts(texts).1,
            text_counts(texts).2 + 1,
        ),
{
    lemma_outcomes_push(texts, text);
    lemma_rejected_record_counted(
        outcomes(texts.map_values(|t: Seq<char>| decoded(t))),
        decoded(text),
    );
}

/// The counts of two batches taken together are the sums of their counts:
/// each record is classified on its own.
pub proof fn lemma_text_counts_concat(a: Seq<Seq<char>>, b: Seq<Seq<char>>)
    ensures
        text_counts(a + b) == (
            text_counts(a).0 + text_counts(b).0,
            text_counts(a).1 + text_counts(b).1,
            text_counts(a).2 + text_counts(b).2,
        ),
    decreases b.len(),
{
    if b.len() == 0 {
        assert(a + b =~= a);
        assert(b.map_values(|t: Seq<char>| decoded(t)) =~= Seq::<Option<(Seq<char>, Seq<char>)>>::empty());
        assert(outcomes(b.map_values(|t: Seq<char>| decoded(t))) =~= Seq::<Outcome>::empty());
    } else {
        let front = b.drop_last();
        lemma_text_counts_concat(a, front);
        assert(a + b =~= (a + front).push(b.last()));
        assert(b =~= front.push(b.last()));
        lemma_outcomes_push(a + front, b.last());
        lemma_outcomes_push(front, b.last());
        let oa = outcomes((a + front).push(b.last()).map_values(|t: Seq<char>| decoded(t)));
        let ob = outcomes(front.push(b.last()).map_values(|t: Seq<char>| decoded(t)));
        assert(oa.drop_last() =~= outcomes((a + front).map_values(|t: Seq<char>| decoded(t))));
        assert(ob.drop_last() =~= outcomes(front.map_values(|t: Seq<char>| decoded(t))));
    }
}

/// The counts of a batch do not depend on the order of its records: two
/// batches that hold the same texts, each as often, have the same counts.
pub proof fn lemma_text_counts_permutation(a: Seq<Seq<char>>, b: Seq<Seq<char>>)
    requires
        a.to_multiset() == b.to_multiset(),
    ensures
        text_counts(a) == text_counts(b),
    decreases a.len(),
{
    broadcast use vstd::seq_lib::group_to_multiset_ensures, vstd::multiset::group_multiset_axioms;

    let e = Seq::<Seq<char>>::empty();
    if a.len() == 0 {
        assert(b.len() == b.to_multiset().len());
        assert(a =~= b);
    } else {
        let x = a.last();
        let a0 = a.drop_last();
        assert(a =~= a0.push(x));
        assert(b.to_multiset().count(x) > 0);
        assert(b.contains(x));
        let i = choose|i: int| 0 <= i < b.len() && b[i] == x;
        let b0 = b.remove(i);
        assert(b0.to_multiset() =~= a0.to_multiset());
        lemma_text_counts_permutation(a0, b0);
        lemma_outcomes_push(a0, x);
        assert(outcomes(a0.push(x).map_values(|t: Seq<char>| decoded(t))).drop_last() =~= outcomes(
            a0.map_values(|t: Seq<char>| decoded(t)),
        ));
        let front = b.take(i);
        let back = b.skip(i + 1);
        assert(b =~= front + (seq![x] + back));
        assert(b0 =~= front + back);
        lemma_text_counts_concat(front, seq![x] + back);
        lemma_text_counts_concat(seq![x], back);
        lemma_text_counts_concat(front, back);
        assert(seq![x] =~= e.push(x));
        lemma_outcomes_push(e, x);
        let ox = outcomes(e.push(x).map_values(|t: Seq<char>| decoded(t)));
        assert(ox.drop_last() =~= outcomes(e.map_values(|t: Seq<char>| decoded(t))));
        assert(outcomes(e.map_values(|t: Seq<char>| decoded(t))) =~= Seq::<Outcome>::empty());
        let o = record_outcome(decoded(x));
        assert(text_counts(e) == (0nat, 0nat, 0nat));
        assert(text_counts(seq![x]) == count_step((0nat, 0nat, 0nat), o));
        assert(text_counts(a) == count_step(text_counts(a0), o));
        assert(text_counts(b) == text_counts(front + (seq![x] + back)));
        assert(text_counts(b0) == text_counts(front + back));
    }
}

} // verus!

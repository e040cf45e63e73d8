//! The decisions of one `export` invocation (the hot path the shell hook
//! runs on every prompt): whether anything changed, which remembered and
//! which freshly merged keys may be set, what to tell the user on stderr,
//! and the shell statements and new state token to print.
use vstd::prelude::*;
use indexmap::IndexMap;
use crate::config::{Config, ConfigView, key_denied};
use crate::diff::{Op, compute_diff, export_ops, restore_ops, new_managed_view, ops_view};
use crate::envmap::{VarPairs, index_map_entries, lookup, pairs_insert, map_new, map_insert, map_len, map_get_index, map_contains_key};
use crate::keymap::{EntryView, ManagedMap, ManagedVar, entries_map, distinct_keys, sorted_keys};
use crate::merge::{EnvLayer, merge_layers, origin_of, layer_pairs, merged_pairs, defining_layer, law_merge_closest_layer_wins};
use crate::shell::{ShellKind, is_valid_shell_key, valid_shell_key, posix_script, is_ascii_alpha, is_ascii_digit};
use crate::state::{EasyenvState, encoded_token, decoded_view};
use crate::text::{debug_quote, debug_quoted, push_char, key_lt, key_less};

verus! {

// --- decimal numbers ---------------------------------------------------------

pub open spec fn digit_char(d: nat) -> char {
    (d + 48) as char
}

/// The decimal digits of `n`, as `Display` writes an unsigned integer.
pub open spec fn decimal(n: nat) -> Seq<char>
    decreases n,
{
    if n < 10 {
        seq![digit_char(n)]
    } else {
        decimal(n / 10).push(digit_char(n % 10))
    }
}

/// Appends the decimal digits of `n`.
pub fn push_decimal(out: &mut String, n: u32)
    ensures
        final(out)@ == old(out)@ + decimal(n as nat),
    decreases n,
{
    if n >= 10 {
        push_decimal(out, n / 10);
    }
    let d: u8 = (n % 10) as u8;
    let c = (d + 48u8) as char;
    push_char(out, c);
    proof {
        if n < 10 {
            assert(decimal(n as nat) =~= seq![digit_char(n as nat)]);
        }
    }
    assert(final(out)@ =~= old(out)@ + decimal(n as nat));
}

// --- warning budget ----------------------------------------------------------

/// The lines written so far and what is left of the budget.
#[verifier::ext_equal]
pub struct BudgetView {
    pub remaining: nat,
    pub suppressed: nat,
    pub lines: Seq<Seq<char>>,
}

/// Caps how many warning lines one invocation writes, so a hostile or
/// broken `.env` with hundreds of denied keys cannot flood the terminal on
/// every `cd`. Lines beyond the cap are counted, and `finish` reports the
/// count.
pub struct WarningBudget {
    remaining: u32,
    suppressed: u32,
    lines: Vec<String>,
}

impl View for WarningBudget {
    type V = BudgetView;

    closed spec fn view(&self) -> BudgetView {
        BudgetView {
            remaining: self.remaining as nat,
            suppressed: self.suppressed as nat,
            lines: self.lines@.map_values(|s: String| s@),
        }
    }
}

/// One budgeted warning: written while the budget lasts, counted after.
pub open spec fn emit_one(b: BudgetView, msg: Seq<char>) -> BudgetView {
    if b.remaining > 0 {
        BudgetView { remaining: (b.remaining - 1) as nat, suppressed: b.suppressed, lines: b.lines.push(msg) }
    } else {
        BudgetView { remaining: b.remaining, suppressed: b.suppressed + 1, lines: b.lines }
    }
}

pub open spec fn emit_all(b: BudgetView, msgs: Seq<Seq<char>>) -> BudgetView
    decreases msgs.len(),
{
    if msgs.len() == 0 {
        b
    } else {
        emit_one(emit_all(b, msgs.drop_last()), msgs.last())
    }
}

/// How many of `n` budgeted warnings a budget of `cap` writes.
pub open spec fn shown(cap: nat, n: nat) -> nat {
    if n <= cap {
        n
    } else {
        cap
    }
}

/// The first `remaining` warnings are written, the rest counted.
pub proof fn lemma_emit_all(b: BudgetView, msgs: Seq<Seq<char>>)
    ensures
        emit_all(b, msgs) == (BudgetView {
            remaining: (b.remaining - shown(b.remaining, msgs.len())) as nat,
            suppressed: b.suppressed + (msgs.len() - shown(b.remaining, msgs.len())) as nat,
            lines: b.lines + msgs.take(shown(b.remaining, msgs.len()) as int),
        }),
    decreases msgs.len(),
{
    if msgs.len() == 0 {
        assert(b.lines + msgs.take(0) =~= b.lines);
        assert(emit_all(b, msgs) =~= (BudgetView {
            remaining: (b.remaining - shown(b.remaining, msgs.len())) as nat,
            suppressed: b.suppressed + (msgs.len() - shown(b.remaining, msgs.len())) as nat,
            lines: b.lines + msgs.take(shown(b.remaining, msgs.len()) as int),
        }));
    } else {
        let d = msgs.drop_last();
        lemma_emit_all(b, d);
        let n = msgs.len();
        if n <= b.remaining {
            assert(d.take((n - 1) as int).push(msgs.last()) =~= msgs.take(n as int));
            assert((b.lines + d.take((n - 1) as int)).push(msgs.last()) =~= b.lines + msgs.take(n as int));
        } else {
            assert(d.take(b.remaining as int) =~= msgs.take(b.remaining as int));
        }
        assert(emit_all(b, msgs) =~= (BudgetView {
            remaining: (b.remaining - shown(b.remaining, msgs.len())) as nat,
            suppressed: b.suppressed + (msgs.len() - shown(b.remaining, msgs.len())) as nat,
            lines: b.lines + msgs.take(shown(b.remaining, msgs.len()) as int),
        }));
    }
}

/// The summary line for `n` warnings beyond the cap.
pub open spec fn more_line(n: nat) -> Seq<char> {
    "easyenv: ... and "@ + decimal(n) + " more"@
}

/// The written lines, then the summary line if anything was held back.
pub open spec fn finished_lines(b: BudgetView) -> Seq<Seq<char>> {
    b.lines + if b.suppressed > 0 {
        seq![more_line(b.suppressed)]
    } else {
        Seq::empty()
    }
}

impl WarningBudget {
    pub fn new(cap: u32) -> (b: WarningBudget)
        ensures
            b@ == (BudgetView { remaining: cap as nat, suppressed: 0, lines: Seq::empty() }),
    {
        let b = WarningBudget { remaining: cap, suppressed: 0, lines: Vec::new() };
        assert(b@ =~= (BudgetView { remaining: cap as nat, suppressed: 0, lines: Seq::empty() }));
        b
    }

    /// A budgeted warning.
    pub fn emit(&mut self, msg: String)
        requires
            old(self)@.suppressed < u32::MAX,
        ensures
            final(self)@ == emit_one(old(self)@, msg@),
    {
        let ghost m = msg@;
        if self.remaining > 0 {
            self.lines.push(msg);
            self.remaining = self.remaining - 1;
        } else {
            self.suppressed = self.suppressed + 1;
        }
        assert(self@ =~= emit_one(old(self)@, m));
    }

    /// A line written whatever the budget, and not counted against it.
    pub fn note(&mut self, msg: String)
        ensures
            final(self)@ == (BudgetView { lines: old(self)@.lines.push(msg@), ..old(self)@ }),
    {
        let ghost m = msg@;
        self.lines.push(msg);
        assert(self@ =~= (BudgetView { lines: old(self)@.lines.push(m), ..old(self)@ }));
    }

    /// The lines to write, closed by a count of those held back.
    pub fn finish(self) -> (lines: Vec<String>)
        ensures
            lines@.map_values(|s: String| s@) == finished_lines(self@),
    {
        let ghost v = self@;
        let mut lines = self.lines;
        if self.suppressed > 0 {
            let mut m = String::from_str("easyenv: ... and ");
            push_decimal(&mut m, self.suppressed);
            m.append(" more");
            lines.push(m);
        }
        assert(lines@.map_values(|s: String| s@) =~= finished_lines(v));
        lines
    }
}

// --- keeping entries by key ----------------------------------------------------

/// The entries whose keys `keep` accepts, in order.
pub open spec fn keep_keys<V>(s: Seq<(Seq<char>, V)>, keep: spec_fn(Seq<char>) -> bool) -> Seq<(Seq<char>, V)>
    decreases s.len(),
{
    if s.len() == 0 {
        Seq::empty()
    } else {
        keep_keys(s.drop_last(), keep) + if keep(s.last().0) {
            seq![s.last()]
        } else {
            Seq::empty()
        }
    }
}

/// Every kept entry is an entry of the input.
pub proof fn lemma_keep_keys_from<V>(s: Seq<(Seq<char>, V)>, keep: spec_fn(Seq<char>) -> bool)
    ensures
        keep_keys(s, keep).len() <= s.len(),
        forall|j: int| 0 <= j < keep_keys(s, keep).len() ==> exists|l: int| 0 <= l < s.len() && #[trigger] keep_keys(s, keep)[j] == s[l],
    decreases s.len(),
{
    if s.len() > 0 {
        let d = s.drop_last();
        lemma_keep_keys_from(d, keep);
        let k = keep_keys(s, keep);
        let kd = keep_keys(d, keep);
        assert forall|j: int| 0 <= j < k.len() implies exists|l: int| 0 <= l < s.len() && #[trigger] k[j] == s[l] by {
            if j < kd.len() {
                assert(k[j] == kd[j]);
                let l = choose|l: int| 0 <= l < d.len() && #[trigger] kd[j] == d[l];
                assert(k[j] == s[l]);
            } else {
                assert(k[j] == s[s.len() - 1]);
            }
        }
    }
}

/// Keeping keys keeps them distinct.
pub proof fn lemma_keep_keys_distinct<V>(s: Seq<(Seq<char>, V)>, keep: spec_fn(Seq<char>) -> bool)
    requires
        distinct_keys(s),
    ensures
        distinct_keys(keep_keys(s, keep)),
    decreases s.len(),
{
    if s.len() > 0 {
        let d = s.drop_last();
        assert(distinct_keys(d)) by {
            assert forall|a: int, b: int| 0 <= a < d.len() && 0 <= b < d.len() && a != b implies #[trigger] d[a].0 != #[trigger] d[b].0 by {
                assert(d[a] == s[a] && d[b] == s[b]);
            }
        }
        lemma_keep_keys_distinct(d, keep);
        lemma_keep_keys_from(d, keep);
        let k = keep_keys(s, keep);
        let kd = keep_keys(d, keep);
        assert forall|a: int, b: int| 0 <= a < k.len() && 0 <= b < k.len() && a != b implies #[trigger] k[a].0 != #[trigger] k[b].0 by {
            if a < kd.len() && b < kd.len() {
                assert(k[a] == kd[a] && k[b] == kd[b]);
            } else if a < kd.len() {
                assert(k[a] == kd[a]);
                let l = choose|l: int| 0 <= l < d.len() && #[trigger] kd[a] == d[l];
                assert(k[b] == s[s.len() - 1]);
                assert(s[l] == d[l]);
            } else {
                assert(k[b] == kd[b]);
                let l = choose|l: int| 0 <= l < d.len() && #[trigger] kd[b] == d[l];
                assert(k[a] == s[s.len() - 1]);
                assert(s[l] == d[l]);
            }
        }
    }
}

/// The messages a walk over `s` produces: `msg(k)` for each key where
/// `msg` gives one, in order.
pub open spec fn key_messages<V>(s: Seq<(Seq<char>, V)>, msg: spec_fn(Seq<char>) -> Option<Seq<char>>) -> Seq<Seq<char>>
    decreases s.len(),
{
    if s.len() == 0 {
        Seq::empty()
    } else {
        key_messages(s.drop_last(), msg) + match msg(s.last().0) {
            Some(m) => seq![m],
            None => Seq::empty(),
        }
    }
}

pub proof fn lemma_key_messages_len<V>(s: Seq<(Seq<char>, V)>, msg: spec_fn(Seq<char>) -> Option<Seq<char>>)
    ensures
        key_messages(s, msg).len() <= s.len(),
    decreases s.len(),
{
    if s.len() > 0 {
        lemma_key_messages_len(s.drop_last(), msg);
    }
}

/// One more entry: what it adds to the kept entries.
pub proof fn lemma_keep_keys_step<V>(s: Seq<(Seq<char>, V)>, i: int, keep: spec_fn(Seq<char>) -> bool)
    requires
        0 <= i < s.len(),
    ensures
        keep_keys(s.take(i + 1), keep) == keep_keys(s.take(i), keep) + if keep(s[i].0) {
            seq![s[i]]
        } else {
            Seq::empty()
        },
{
    assert(s.take(i + 1).drop_last() =~= s.take(i));
    assert(s.take(i + 1).last() == s[i]);
}

/// One more entry: what it adds to the messages.
pub proof fn lemma_key_messages_step<V>(s: Seq<(Seq<char>, V)>, i: int, msg: spec_fn(Seq<char>) -> Option<Seq<char>>)
    requires
        0 <= i < s.len(),
    ensures
        key_messages(s.take(i + 1), msg) == key_messages(s.take(i), msg) + match msg(s[i].0) {
            Some(m) => seq![m],
            None => Seq::empty(),
        },
{
    assert(s.take(i + 1).drop_last() =~= s.take(i));
    assert(s.take(i + 1).last() == s[i]);
}

pub proof fn lemma_emit_all_push(b: BudgetView, msgs: Seq<Seq<char>>, m: Seq<char>)
    ensures
        emit_all(b, msgs.push(m)) == emit_one(emit_all(b, msgs), m),
        emit_all(b, msgs + Seq::empty()) == emit_all(b, msgs),
        emit_all(b, msgs + seq![m]) == emit_one(emit_all(b, msgs), m),
{
    assert(msgs.push(m).drop_last() =~= msgs);
    assert(msgs + Seq::<Seq<char>>::empty() =~= msgs);
    assert(msgs + seq![m] =~= msgs.push(m));
}

// --- the previous state ----------------------------------------------------

/// The state the last invocation left in `EASYENV_STATE`: the decoded
/// token, or the empty state when there is none or it does not decode
/// (an easyenv upgrade mid-session then just triggers a fresh recompute).
pub fn previous_state(token: Option<&str>) -> (st: EasyenvState)
    ensures
        st.managed.wf(),
        match token {
            Some(t) => match decoded_view(t@) {
                Some((sig, m)) => st.signature == sig && st.managed@ == m,
                None => st.signature == 0 && st.managed.entry_seq().len() == 0,
            },
            None => st.signature == 0 && st.managed.entry_seq().len() == 0,
        },
{
    match token {
        Some(t) => match EasyenvState::decode(t) {
            Some(st) => st,
            None => EasyenvState::empty(),
        },
        None => EasyenvState::empty(),
    }
}

/// The fast path: the signature the last invocation remembered matches,
/// so nothing can have changed and nothing needs to be printed.
pub fn fast_path_hit(prev: &EasyenvState, signature: u64) -> (hit: bool)
    ensures
        hit == (prev.signature == signature),
{
    prev.signature == signature
}

// --- stale state -------------------------------------------------------------

pub open spec fn stale_key_message(k: Seq<char>) -> Seq<char> {
    "easyenv: warning: dropping denied key "@ + debug_quoted(k) + " found in stale state (see docs/reference/security.md)"@
}

pub open spec fn stale_invalid_key_message(k: Seq<char>) -> Seq<char> {
    "easyenv: warning: dropping key "@ + debug_quoted(k) + " found in stale state, not a valid shell identifier"@
}

pub open spec fn stale_message(c: ConfigView) -> spec_fn(Seq<char>) -> Option<Seq<char>> {
    |k: Seq<char>| if !valid_shell_key(k) {
        Some(stale_invalid_key_message(k))
    } else if key_denied(c, k) {
        Some(stale_key_message(k))
    } else {
        None
    }
}

/// Drops (does not unset) remembered keys that are now denied, or that are
/// not valid shell identifiers, as if easyenv had never touched them: a
/// denylist entry added after the state was saved, or a forged
/// `EASYENV_STATE`, could otherwise replay such a key through the restore
/// path unfiltered. Each dropped key is reported through the budget.
pub fn drop_denied_stale(managed: &ManagedMap, config: &Config, budget: &mut WarningBudget) -> (kept: ManagedMap)
    requires
        managed.wf(),
        old(budget)@.suppressed + managed.entry_seq().len() < u32::MAX,
    ensures
        kept.wf(),
        kept.entry_seq() == keep_keys(managed.entry_seq(), settable(config@)),
        final(budget)@ == emit_all(old(budget)@, key_messages(managed.entry_seq(), stale_message(config@))),
{
    let ghost es = managed.entry_seq();
    let ghost c = config@;
    let ghost b0 = budget@;
    proof {
        managed.lemma_wf();
    }
    let n = managed.len();
    let mut kept = ManagedMap::new();
    assert(es.take(0) =~= Seq::<EntryView>::empty());
    let mut i: usize = 0;
    while i < n
        invariant
            es == managed.entry_seq(),
            managed.wf(),
            sorted_keys(es),
            n == es.len(),
            i <= n,
            c == config@,
            b0.suppressed + n < u32::MAX,
            kept.wf(),
            kept.entry_seq() == keep_keys(es.take(i as int), settable(c)),
            budget@ == emit_all(b0, key_messages(es.take(i as int), stale_message(c))),
        decreases n - i,
    {
        let (key, mv) = managed.entry(i);
        let ghost msgs = key_messages(es.take(i as int), stale_message(c));
        proof {
            lemma_emit_all(b0, msgs);
            lemma_key_messages_len(es.take(i as int), stale_message(c));
            lemma_keep_keys_step(es, i as int, settable(c));
            lemma_key_messages_step(es, i as int, stale_message(c));
        }
        let valid = is_valid_shell_key(key.as_str());
        if !valid {
            let mut m = String::from_str("easyenv: warning: dropping key ");
            let q = debug_quote(key.as_str());
            m.append(q.as_str());
            m.append(" found in stale state, not a valid shell identifier");
            let ghost mv_ = m@;
            budget.emit(m);
            proof {
                assert(mv_ == stale_invalid_key_message(key@));
                lemma_emit_all_push(b0, msgs, mv_);
                assert(keep_keys(es.take(i as int), settable(c)) + Seq::empty() =~= keep_keys(es.take(i as int), settable(c)));
            }
        } else if config.is_denied_key(key.as_str()) {
            let mut m = String::from_str("easyenv: warning: dropping denied key ");
            let q = debug_quote(key.as_str());
            m.append(q.as_str());
            m.append(" found in stale state (see docs/reference/security.md)");
            let ghost mv_ = m@;
            budget.emit(m);
            proof {
                assert(mv_ == stale_key_message(key@));
                lemma_emit_all_push(b0, msgs, mv_);
                assert(keep_keys(es.take(i as int), settable(c)) + Seq::empty() =~= keep_keys(es.take(i as int), settable(c)));
            }
        } else {
            proof {
                let kk = keep_keys(es.take(i as int), settable(c));
                lemma_keep_keys_from(es.take(i as int), settable(c));
                assert forall|j: int| 0 <= j < kk.len() implies key_lt(#[trigger] kk[j].0, key@) by {
                    let l = choose|l: int| 0 <= l < es.take(i as int).len() && #[trigger] kk[j] == es.take(i as int)[l];
                    assert(es.take(i as int)[l] == es[l]);
                }
                lemma_emit_all_push(b0, msgs, Seq::empty());
                assert(kk + seq![es[i as int]] =~= kk.push(es[i as int]));
            }
            kept.push_greatest(String::from_str(key.as_str()), ManagedVar { prior: mv.prior.clone_value() });
        }
        i = i + 1;
    }
    assert(es.take(n as int) =~= es);
    kept
}

// --- the target ------------------------------------------------------------------

/// A key the shell may be told to set: a valid identifier, not denied.
pub open spec fn settable(c: ConfigView) -> spec_fn(Seq<char>) -> bool {
    |k: Seq<char>| valid_shell_key(k) && !key_denied(c, k)
}

pub open spec fn skip_key_message(k: Seq<char>) -> Seq<char> {
    "easyenv: warning: skipping key "@ + debug_quoted(k) + ", not a valid shell identifier"@
}

pub open spec fn refuse_key_message(k: Seq<char>, origin: Seq<char>) -> Seq<char> {
    "easyenv: warning: refusing to set "@ + debug_quoted(k) + " from "@ + origin
        + "\n  This name is denied by default -- see docs/reference/security.md. If you need it, add it to `allow` in ~/.config/easyenv/config.toml."@
}

/// The file a merged key came from, as text (empty if none defines it).
pub open spec fn origin_text(layers: Seq<EnvLayer>, k: Seq<char>) -> Seq<char> {
    match defining_layer(layer_pairs(layers), k) {
        Some(j) => layers[j].source@,
        None => Seq::empty(),
    }
}

pub open spec fn target_message(c: ConfigView, layers: Seq<EnvLayer>) -> spec_fn(Seq<char>) -> Option<Seq<char>> {
    |k: Seq<char>| if !valid_shell_key(k) {
        Some(skip_key_message(k))
    } else if key_denied(c, k) {
        Some(refuse_key_message(k, origin_text(layers, k)))
    } else {
        None
    }
}

fn origin_string(layers: &[EnvLayer], key: &str) -> (r: String)
    ensures
        r@ == origin_text(layers@, key@),
{
    match origin_of(layers, key) {
        Some(o) => String::from_str(o),
        None => String::new(),
    }
}

/// Keeps the merged keys the shell may be told to set, reporting each
/// one that is not a valid shell identifier or is denied (naming the file
/// it came from) through the budget.
pub fn filter_target(
    merged: &IndexMap<String, String>,
    layers: &[EnvLayer],
    config: &Config,
    budget: &mut WarningBudget,
) -> (target: IndexMap<String, String>)
    requires
        distinct_keys(index_map_entries(*merged)),
        old(budget)@.suppressed + index_map_entries(*merged).len() < u32::MAX,
    ensures
        index_map_entries(target) == keep_keys(index_map_entries(*merged), settable(config@)),
        final(budget)@ == emit_all(old(budget)@, key_messages(index_map_entries(*merged), target_message(config@, layers@))),
{
    let ghost es = index_map_entries(*merged);
    let ghost c = config@;
    let ghost b0 = budget@;
    let ghost tm = target_message(c, layers@);
    let n = map_len(merged);
    let mut target = map_new();
    assert(es.take(0) =~= Seq::<(Seq<char>, Seq<char>)>::empty());
    let mut i: usize = 0;
    while i < n
        invariant
            es == index_map_entries(*merged),
            distinct_keys(es),
            n == es.len(),
            i <= n,
            c == config@,
            tm == target_message(c, layers@),
            b0.suppressed + n < u32::MAX,
            index_map_entries(target) == keep_keys(es.take(i as int), settable(c)),
            budget@ == emit_all(b0, key_messages(es.take(i as int), tm)),
        decreases n - i,
    {
        let kv = map_get_index(merged, i).unwrap();
        let k = kv.0;
        let v = kv.1;
        let ghost msgs = key_messages(es.take(i as int), tm);
        let ghost kk = keep_keys(es.take(i as int), settable(c));
        proof {
            lemma_emit_all(b0, msgs);
            lemma_key_messages_len(es.take(i as int), tm);
            lemma_keep_keys_step(es, i as int, settable(c));
            lemma_key_messages_step(es, i as int, tm);
            assert(es[i as int] == (k@, v@));
        }
        if !is_valid_shell_key(k.as_str()) {
            let mut m = String::from_str("easyenv: warning: skipping key ");
            let q = debug_quote(k.as_str());
            m.append(q.as_str());
            m.append(", not a valid shell identifier");
            let ghost mv_ = m@;
            budget.emit(m);
            proof {
                assert(mv_ == skip_key_message(k@));
                lemma_emit_all_push(b0, msgs, mv_);
                assert(kk + Seq::empty() =~= kk);
            }
        } else {
            if config.is_denied_key(k.as_str()) {
                let mut m = String::from_str("easyenv: warning: refusing to set ");
                let q = debug_quote(k.as_str());
                m.append(q.as_str());
                m.append(" from ");
                let o = origin_string(layers, k.as_str());
                m.append(o.as_str());
                m.append("\n  This name is denied by default -- see docs/reference/security.md. If you need it, add it to `allow` in ~/.config/easyenv/config.toml.");
                let ghost mv_ = m@;
                budget.emit(m);
                proof {
                    assert(mv_ == refuse_key_message(k@, origin_text(layers@, k@)));
                    lemma_emit_all_push(b0, msgs, mv_);
                    assert(kk + Seq::empty() =~= kk);
                }
            } else {
                proof {
                    lemma_keep_keys_from(es.take(i as int), settable(c));
                    assert(!exists|j: int| 0 <= j < kk.len() && #[trigger] kk[j].0 == k@) by {
                        if exists|j: int| 0 <= j < kk.len() && #[trigger] kk[j].0 == k@ {
                            let j = choose|j: int| 0 <= j < kk.len() && #[trigger] kk[j].0 == k@;
                            let l = choose|l: int| 0 <= l < es.take(i as int).len() && #[trigger] kk[j] == es.take(i as int)[l];
                            assert(es.take(i as int)[l] == es[l]);
                            assert(es[l].0 == es[i as int].0);
                        }
                    }
                    assert(pairs_insert(kk, k@, v@) == kk.push((k@, v@)));
                    assert(kk + seq![es[i as int]] =~= kk.push((k@, v@)));
                    lemma_emit_all_push(b0, msgs, Seq::empty());
                }
                map_insert(&mut target, String::from_str(k.as_str()), String::from_str(v.as_str()));
            }
        }
        i = i + 1;
    }
    assert(es.take(n as int) =~= es);
    target
}

// --- the shell's current values ----------------------------------------------------

/// Pairs of strings, by value.
pub open spec fn pairs_view(env: Seq<(String, String)>) -> VarPairs {
    env.map_values(|p: (String, String)| (p.0@, p.1@))
}

/// A key the diff needs the shell's value of: one about to be set or one
/// currently managed.
pub open spec fn of_interest(t: VarPairs, m: Map<Seq<char>, Option<Seq<char>>>, k: Seq<char>) -> bool {
    lookup(t, k) is Some || m.contains_key(k)
}

/// The shell's variables of interest, inserted in order (a repeated name
/// keeps its last value).
pub open spec fn snapshot_pairs(env: VarPairs, t: VarPairs, m: Map<Seq<char>, Option<Seq<char>>>) -> VarPairs
    decreases env.len(),
{
    if env.len() == 0 {
        Seq::empty()
    } else {
        let rest = snapshot_pairs(env.drop_last(), t, m);
        if of_interest(t, m, env.last().0) {
            pairs_insert(rest, env.last().0, env.last().1)
        } else {
            rest
        }
    }
}

/// The shell's current values for the keys of interest, from the process
/// environment's variables.
pub fn shell_snapshot(env: &[(String, String)], target: &IndexMap<String, String>, managed: &ManagedMap) -> (snap: IndexMap<String, String>)
    requires
        managed.wf(),
    ensures
        index_map_entries(snap) == snapshot_pairs(pairs_view(env@), index_map_entries(*target), managed@),
{
    let ghost ev = pairs_view(env@);
    let ghost t = index_map_entries(*target);
    let mut snap = map_new();
    assert(ev.take(0) =~= Seq::<(Seq<char>, Seq<char>)>::empty());
    let mut i: usize = 0;
    while i < env.len()
        invariant
            ev == pairs_view(env@),
            t == index_map_entries(*target),
            managed.wf(),
            i <= env@.len(),
            index_map_entries(snap) == snapshot_pairs(ev.take(i as int), t, managed@),
        decreases env.len() - i,
    {
        let (k, v) = &env[i];
        proof {
            assert(ev.take(i + 1).drop_last() =~= ev.take(i as int));
            assert(ev.take(i + 1).last() == (k@, v@));
        }
        if map_contains_key(target, k.as_str()) || managed.get(k.as_str()).is_some() {
            map_insert(&mut snap, String::from_str(k.as_str()), String::from_str(v.as_str()));
        }
        i = i + 1;
    }
    assert(ev.take(env@.len() as int) =~= ev);
    snap
}

// --- the plan ------------------------------------------------------------------

/// How many budgeted warning lines one invocation writes.
pub const WARNING_CAP: u32 = 10;

/// What one `export` invocation prints: `script` on stdout (the shell
/// evaluates it), `messages` on stderr, line by line.
pub struct ExportPlan {
    pub ops: Vec<Op>,
    pub state: EasyenvState,
    pub token: String,
    pub script: String,
    pub messages: Vec<String>,
}

pub open spec fn strings_view(v: Seq<String>) -> Seq<Seq<char>> {
    v.map_values(|s: String| s@)
}

/// A `.env` parse warning as written to stderr.
pub open spec fn parse_warning_lines(ws: Seq<String>) -> Seq<Seq<char>> {
    ws.map_values(|w: String| "easyenv: warning: "@ + w@)
}

/// The stderr lines: the stale-key warnings the budget allows, every parse
/// warning, the target warnings the rest of the budget allows, and the
/// count of those held back, if any.
pub open spec fn export_messages(stale: Seq<Seq<char>>, parse: Seq<Seq<char>>, target: Seq<Seq<char>>) -> Seq<Seq<char>> {
    let s1 = shown(WARNING_CAP as nat, stale.len());
    let s2 = shown((WARNING_CAP - s1) as nat, target.len());
    let held = ((stale.len() - s1) + (target.len() - s2)) as nat;
    stale.take(s1 as int) + parse + target.take(s2 as int) + if held > 0 {
        seq![more_line(held)]
    } else {
        Seq::empty()
    }
}

/// The remembered entries that may still be restored: valid shell
/// identifiers the denylist does not deny.
pub open spec fn kept_entries(c: ConfigView, prev: Seq<EntryView>) -> Seq<EntryView> {
    keep_keys(prev, settable(c))
}

/// The merged variables the shell may be told to set.
pub open spec fn target_pairs(c: ConfigView, layers: Seq<EnvLayer>) -> VarPairs {
    keep_keys(merged_pairs(layer_pairs(layers)), settable(c))
}

/// The shell's values for the keys of interest.
pub open spec fn snapshot_view(c: ConfigView, prev: Seq<EntryView>, layers: Seq<EnvLayer>, env: Seq<(String, String)>) -> VarPairs {
    snapshot_pairs(pairs_view(env), target_pairs(c, layers), entries_map(kept_entries(c, prev)))
}

/// Whether the warning counter can hold every key `plan_export` may warn
/// about.
pub fn plan_fits(prev: &EasyenvState, layers: &[EnvLayer]) -> (r: bool)
    requires
        prev.managed.wf(),
    ensures
        r == (prev.managed.entry_seq().len() + merged_pairs(layer_pairs(layers@)).len() < u32::MAX),
{
    let merged = merge_layers(layers);
    let a = prev.managed.len() as u64;
    let b = map_len(&merged) as u64;
    a < 0xffff_ffffu64 && b < 0xffff_ffffu64 - a
}

/// What a plan for these inputs holds: the stderr lines, the operations
/// of the diff between the kept state and the settable target, the new
/// state (recording `signature`), its token, and the script.
pub open spec fn is_export_plan(
    plan: ExportPlan,
    prev: EasyenvState,
    signature: u64,
    c: ConfigView,
    layers: Seq<EnvLayer>,
    parse_warnings: Seq<String>,
    env: Seq<(String, String)>,
) -> bool {
    let pes = prev.managed.entry_seq();
    let t = target_pairs(c, layers);
    let snap = snapshot_view(c, pes, layers, env);
    &&& strings_view(plan.messages@) == export_messages(
        key_messages(pes, stale_message(c)),
        parse_warning_lines(parse_warnings),
        key_messages(merged_pairs(layer_pairs(layers)), target_message(c, layers)),
    )
    &&& ops_view(plan.ops@) == export_ops(t, snap) + restore_ops(kept_entries(c, pes), t)
    &&& plan.state.signature == signature
    &&& plan.state.managed.wf()
    &&& plan.state.managed@ == new_managed_view(t, entries_map(kept_entries(c, pes)), snap)
    &&& plan.token@ == encoded_token(signature, plan.state.managed.entry_seq())
    &&& plan.script@ == posix_script(ops_view(plan.ops@), plan.token@)
    &&& forall|j: int| 0 <= j < plan.ops@.len() ==> settable(c)(op_key(#[trigger] plan.ops@[j]@))
}

/// Whether `plan_export` may be called: the warning counter can hold every
/// key it may warn about.
pub open spec fn export_plannable(prev: EasyenvState, c: ConfigView, layers: Seq<EnvLayer>) -> bool {
    prev.managed.entry_seq().len() + merged_pairs(layer_pairs(layers)).len() < u32::MAX
}

/// Plans one `export` invocation past the fast path: drops now-denied
/// keys from the remembered state, merges the layers, keeps the keys that
/// may be set, diffs against the shell's current values, and renders the
/// statements and the new state token (which records `signature`).
pub fn plan_export(
    shell: ShellKind,
    prev: &EasyenvState,
    signature: u64,
    config: &Config,
    layers: &[EnvLayer],
    parse_warnings: &[String],
    env: &[(String, String)],
) -> (plan: ExportPlan)
    requires
        prev.managed.wf(),
        export_plannable(*prev, config@, layers@),
    ensures
        is_export_plan(plan, *prev, signature, config@, layers@, parse_warnings@, env@),
{
    let ghost c = config@;
    let ghost pes = prev.managed.entry_seq();
    let ghost merged_es = merged_pairs(layer_pairs(layers@));
    let ghost stale = key_messages(pes, stale_message(c));
    let ghost parse = parse_warning_lines(parse_warnings@);
    let ghost tmsgs = key_messages(merged_es, target_message(c, layers@));
    let mut budget = WarningBudget::new(WARNING_CAP);
    let ghost b0 = budget@;
    let kept = drop_denied_stale(&prev.managed, config, &mut budget);
    let ghost b1 = budget@;
    proof {
        lemma_emit_all(b0, stale);
        lemma_key_messages_len(pes, stale_message(c));
    }
    let mut i: usize = 0;
    while i < parse_warnings.len()
        invariant
            i <= parse_warnings@.len(),
            parse == parse_warning_lines(parse_warnings@),
            budget@ == (BudgetView { lines: b1.lines + parse.take(i as int), ..b1 }),
        decreases parse_warnings.len() - i,
    {
        let mut m = String::from_str("easyenv: warning: ");
        m.append(parse_warnings[i].as_str());
        budget.note(m);
        assert(b1.lines + parse.take(i + 1) =~= (b1.lines + parse.take(i as int)).push(parse[i as int]));
        i = i + 1;
    }
    assert(parse.take(parse_warnings@.len() as int) =~= parse);
    let ghost b2 = budget@;
    let merged = merge_layers(layers);
    proof {
        law_merge_closest_layer_wins(layer_pairs(layers@), Seq::empty());
    }
    let target = filter_target(&merged, layers, config, &mut budget);
    let ghost b3 = budget@;
    proof {
        lemma_emit_all(b2, tmsgs);
        assert(b3.lines =~= stale.take(shown(WARNING_CAP as nat, stale.len()) as int) + parse
            + tmsgs.take(shown((WARNING_CAP - shown(WARNING_CAP as nat, stale.len())) as nat, tmsgs.len()) as int));
    }
    let messages = budget.finish();
    proof {
        assert(finished_lines(b3) =~= export_messages(stale, parse, tmsgs));
    }
    let kept_state = EasyenvState { managed: kept, signature: prev.signature };
    proof {
        kept_state.managed.lemma_wf();
    }
    let snapshot = shell_snapshot(env, &target, &kept_state.managed);
    let (ops, new_managed) = compute_diff(&kept_state, &snapshot, &target);
    let state = EasyenvState { managed: new_managed, signature };
    let token = state.encode();
    let script = shell.format_ops(ops.as_slice(), token.as_str());
    proof {
        let t = target_pairs(c, layers@);
        let snap = snapshot_view(c, pes, layers@, env@);
        law_plan_never_touches_denied_keys(c, pes, layers@, snap);
        let ex = export_ops(t, snap);
        let re = restore_ops(kept_entries(c, pes), t);
        assert forall|j: int| 0 <= j < ops@.len() implies settable(c)(op_key(#[trigger] ops@[j]@)) by {
            assert(ops@[j]@ == ops_view(ops@)[j]);
            if j < ex.len() {
                assert(ops_view(ops@)[j] == ex[j]);
            } else {
                assert(ops_view(ops@)[j] == re[j - ex.len()]);
            }
        }
    }
    ExportPlan { ops, state, token, script, messages }
}

/// `plan_export`, where it may be called: `None` exactly where there are
/// too many keys to count warnings for.
pub fn plan_export_checked(
    shell: ShellKind,
    prev: &EasyenvState,
    signature: u64,
    config: &Config,
    layers: &[EnvLayer],
    parse_warnings: &[String],
    env: &[(String, String)],
) -> (r: Option<ExportPlan>)
    requires
        prev.managed.wf(),
    ensures
        r is Some <==> export_plannable(*prev, config@, layers@),
        r matches Some(plan) ==> is_export_plan(plan, *prev, signature, config@, layers@, parse_warnings@, env@),
{
    if !plan_fits(prev, layers) {
        return None;
    }
    Some(plan_export(shell, prev, signature, config, layers, parse_warnings, env))
}

// --- the other commands --------------------------------------------------------------

// --- ascending key order ----------------------------------------------------

/// `s` with `e` inserted before the first entry whose key `e`'s key
/// precedes.
pub open spec fn insert_by_key(s: VarPairs, e: (Seq<char>, Seq<char>)) -> VarPairs
    decreases s.len(),
{
    if s.len() == 0 {
        seq![e]
    } else if key_lt(e.0, s[0].0) {
        seq![e] + s
    } else {
        seq![s[0]] + insert_by_key(s.drop_first(), e)
    }
}

/// The pairs in ascending key order (each inserted in turn where it
/// belongs).
pub open spec fn sorted_by_key(es: VarPairs) -> VarPairs
    decreases es.len(),
{
    if es.len() == 0 {
        Seq::empty()
    } else {
        insert_by_key(sorted_by_key(es.drop_last()), es.last())
    }
}

proof fn lemma_insert_at(s: VarPairs, e: (Seq<char>, Seq<char>), p: int)
    requires
        0 <= p <= s.len(),
        forall|j: int| 0 <= j < p ==> !key_lt(e.0, #[trigger] s[j].0),
        p < s.len() ==> key_lt(e.0, s[p].0),
    ensures
        insert_by_key(s, e) == s.insert(p, e),
    decreases p,
{
    if p == 0 {
        if s.len() == 0 {
            assert(s.insert(0, e) =~= seq![e]);
        } else {
            assert(s.insert(0, e) =~= seq![e] + s);
        }
    } else {
        let d = s.drop_first();
        assert forall|j: int| 0 <= j < p - 1 implies !key_lt(e.0, #[trigger] d[j].0) by {
            assert(d[j] == s[j + 1]);
        }
        if p < s.len() {
            assert(d[p - 1] == s[p]);
        }
        lemma_insert_at(d, e, p - 1);
        assert(!key_lt(e.0, s[0].0));
        assert(seq![s[0]] + d.insert(p - 1, e) =~= s.insert(p, e));
    }
}

/// Inserting into ascending pairs a key not among them keeps them
/// ascending and adds exactly that pair.
proof fn lemma_insert_by_key(s: VarPairs, e: (Seq<char>, Seq<char>))
    requires
        forall|i: int, j: int| 0 <= i < j < s.len() ==> key_lt(#[trigger] s[i].0, #[trigger] s[j].0),
        forall|j: int| 0 <= j < s.len() ==> (#[trigger] s[j]).0 != e.0,
    ensures
        insert_by_key(s, e).len() == s.len() + 1,
        forall|i: int, j: int| 0 <= i < j < insert_by_key(s, e).len()
            ==> key_lt(#[trigger] insert_by_key(s, e)[i].0, #[trigger] insert_by_key(s, e)[j].0),
        forall|x: (Seq<char>, Seq<char>)| #[trigger] insert_by_key(s, e).contains(x) <==> (s.contains(x) || x == e),
    decreases s.len(),
{
    let r = insert_by_key(s, e);
    if s.len() == 0 {
        assert(r =~= seq![e]);
        assert forall|x: (Seq<char>, Seq<char>)| #[trigger] r.contains(x) <==> (s.contains(x) || x == e) by {
            if r.contains(x) {
                let k = choose|k: int| 0 <= k < r.len() && r[k] == x;
                assert(k == 0);
            }
            if x == e {
                assert(r[0] == x);
            }
        }
    } else if key_lt(e.0, s[0].0) {
        assert(r =~= seq![e] + s);
        assert forall|i: int, j: int| 0 <= i < j < r.len() implies key_lt(#[trigger] r[i].0, #[trigger] r[j].0) by {
            if i == 0 {
                if j > 1 {
                    assert(key_lt(s[0].0, s[j - 1].0));
                    crate::text::lemma_key_lt_transitive(e.0, s[0].0, s[j - 1].0);
                }
            } else {
                assert(r[i] == s[i - 1] && r[j] == s[j - 1]);
            }
        }
        assert forall|x: (Seq<char>, Seq<char>)| #[trigger] r.contains(x) <==> (s.contains(x) || x == e) by {
            if r.contains(x) {
                let k = choose|k: int| 0 <= k < r.len() && r[k] == x;
                if k > 0 {
                    assert(s[k - 1] == x);
                }
            }
            if s.contains(x) {
                let k = choose|k: int| 0 <= k < s.len() && s[k] == x;
                assert(r[k + 1] == x);
            }
            if x == e {
                assert(r[0] == x);
            }
        }
    } else {
        let d = s.drop_first();
        assert forall|i: int, j: int| 0 <= i < j < d.len() implies key_lt(#[trigger] d[i].0, #[trigger] d[j].0) by {
            assert(d[i] == s[i + 1] && d[j] == s[j + 1]);
        }
        assert forall|j: int| 0 <= j < d.len() implies (#[trigger] d[j]).0 != e.0 by {
            assert(d[j] == s[j + 1]);
        }
        lemma_insert_by_key(d, e);
        let rd = insert_by_key(d, e);
        assert(r =~= seq![s[0]] + rd);
        crate::text::lemma_key_lt_total(e.0, s[0].0);
        assert(s[0].0 != e.0);
        assert(key_lt(s[0].0, e.0));
        assert forall|i: int, j: int| 0 <= i < j < r.len() implies key_lt(#[trigger] r[i].0, #[trigger] r[j].0) by {
            if i == 0 {
                assert(r[j] == rd[j - 1]);
                assert(rd.contains(rd[j - 1]));
                if rd[j - 1] != e {
                    let k = choose|k: int| 0 <= k < d.len() && d[k] == rd[j - 1];
                    assert(d[k] == s[k + 1]);
                }
            } else {
                assert(r[i] == rd[i - 1] && r[j] == rd[j - 1]);
            }
        }
        assert forall|x: (Seq<char>, Seq<char>)| #[trigger] r.contains(x) <==> (s.contains(x) || x == e) by {
            if r.contains(x) {
                let k = choose|k: int| 0 <= k < r.len() && r[k] == x;
                if k > 0 {
                    assert(rd[k - 1] == x);
                    assert(rd.contains(x));
                    if d.contains(x) {
                        let q = choose|q: int| 0 <= q < d.len() && d[q] == x;
                        assert(s[q + 1] == x);
                    }
                }
            }
            if s.contains(x) {
                let k = choose|k: int| 0 <= k < s.len() && s[k] == x;
                if k == 0 {
                    assert(r[0] == x);
                } else {
                    assert(d[k - 1] == x);
                    assert(d.contains(x));
                    assert(rd.contains(x));
                    let q = choose|q: int| 0 <= q < rd.len() && rd[q] == x;
                    assert(r[q + 1] == x);
                }
            }
            if x == e {
                assert(rd.contains(x));
                let q = choose|q: int| 0 <= q < rd.len() && rd[q] == x;
                assert(r[q + 1] == x);
            }
        }
    }
}

/// `status` lists the resolved variables in ascending key order, each
/// exactly once: for pairs with distinct keys (as a merged map has),
/// `sorted_by_key` is ascending and holds exactly the same pairs.
pub proof fn law_sorted_by_key(es: VarPairs)
    requires
        distinct_keys(es),
    ensures
        sorted_by_key(es).len() == es.len(),
        forall|i: int, j: int| 0 <= i < j < sorted_by_key(es).len()
            ==> key_lt(#[trigger] sorted_by_key(es)[i].0, #[trigger] sorted_by_key(es)[j].0),
        forall|x: (Seq<char>, Seq<char>)| #[trigger] sorted_by_key(es).contains(x) <==> es.contains(x),
    decreases es.len(),
{
    if es.len() == 0 {
        assert(sorted_by_key(es) =~= Seq::<(Seq<char>, Seq<char>)>::empty());
    } else {
        let d = es.drop_last();
        assert(distinct_keys(d)) by {
            assert forall|a: int, b: int| 0 <= a < d.len() && 0 <= b < d.len() && a != b implies #[trigger] d[a].0 != #[trigger] d[b].0 by {
                assert(d[a] == es[a] && d[b] == es[b]);
            }
        }
        law_sorted_by_key(d);
        let sd = sorted_by_key(d);
        let e = es.last();
        assert forall|j: int| 0 <= j < sd.len() implies (#[trigger] sd[j]).0 != e.0 by {
            assert(sd.contains(sd[j]));
            assert(d.contains(sd[j]));
            let q = choose|q: int| 0 <= q < d.len() && d[q] == sd[j];
            assert(es[q] == d[q]);
        }
        lemma_insert_by_key(sd, e);
        assert forall|x: (Seq<char>, Seq<char>)| #[trigger] sorted_by_key(es).contains(x) <==> es.contains(x) by {
            if d.contains(x) {
                let q = choose|q: int| 0 <= q < d.len() && d[q] == x;
                assert(es[q] == x);
            }
            if es.contains(x) {
                let q = choose|q: int| 0 <= q < es.len() && es[q] == x;
                if q < es.len() - 1 {
                    assert(d[q] == x);
                }
            }
        }
    }
}

/// The map's pairs in ascending key order.
pub fn sort_by_key(m: &IndexMap<String, String>) -> (out: Vec<(String, String)>)
    ensures
        pairs_view(out@) == sorted_by_key(index_map_entries(*m)),
{
    let ghost es = index_map_entries(*m);
    let n = map_len(m);
    let mut out: Vec<(String, String)> = Vec::new();
    assert(es.take(0) =~= Seq::<(Seq<char>, Seq<char>)>::empty());
    let mut i: usize = 0;
    while i < n
        invariant
            es == index_map_entries(*m),
            n == es.len(),
            i <= n,
            pairs_view(out@) == sorted_by_key(es.take(i as int)),
        decreases n - i,
    {
        let kv = map_get_index(m, i).unwrap();
        let k = kv.0;
        let v = kv.1;
        let ghost sv = pairs_view(out@);
        let mut p: usize = 0;
        while p < out.len() && !key_less(k.as_str(), out[p].0.as_str())
            invariant
                sv == pairs_view(out@),
                p <= out@.len(),
                forall|j: int| 0 <= j < p ==> !key_lt(k@, #[trigger] sv[j].0),
            decreases out.len() - p,
        {
            p = p + 1;
        }
        proof {
            lemma_insert_at(sv, (k@, v@), p as int);
            assert(es.take(i + 1).drop_last() =~= es.take(i as int));
            assert(es.take(i + 1).last() == es[i as int]);
            assert(es[i as int] == (k@, v@));
        }
        out.insert(p, (String::from_str(k.as_str()), String::from_str(v.as_str())));
        assert(pairs_view(out@) =~= sv.insert(p as int, (k@, v@)));
        i = i + 1;
    }
    assert(es.take(n as int) =~= es);
    out
}

/// A line for stdout or for stderr.
pub enum OutLine {
    Stdout(String),
    Stderr(String),
}

impl View for OutLine {
    /// Whether the line goes to stderr, and its text.
    type V = (bool, Seq<char>);

    open spec fn view(&self) -> (bool, Seq<char>) {
        match self {
            OutLine::Stdout(s) => (false, s@),
            OutLine::Stderr(s) => (true, s@),
        }
    }
}

pub open spec fn lines_view(v: Seq<OutLine>) -> Seq<(bool, Seq<char>)> {
    v.map_values(|l: OutLine| l@)
}

/// What `init` prints: on a terminal, the snippet with instructions
/// around it; otherwise (say, redirected into the rc file) the bare
/// snippet.
pub open spec fn init_lines(shell: ShellKind, invocation: Seq<char>, interactive: bool) -> Seq<Seq<char>> {
    let snippet = crate::shell::init_line(invocation, shell.name());
    if interactive {
        seq![
            "Add this line to your "@ + match shell {
                ShellKind::Bash => "~/.bashrc"@,
                ShellKind::Zsh => "~/.zshrc"@,
            } + ":"@,
            ""@,
            "    "@ + snippet,
            ""@,
            "Then restart your shell (or `source` the rc file)."@,
        ]
    } else {
        seq![snippet]
    }
}

pub fn init_output(shell: ShellKind, easyenv_invocation: &str, interactive: bool) -> (lines: Vec<String>)
    ensures
        strings_view(lines@) == init_lines(shell, easyenv_invocation@, interactive),
{
    let snippet = shell.init_snippet(easyenv_invocation);
    let mut lines: Vec<String> = Vec::new();
    if interactive {
        let mut first = String::from_str("Add this line to your ");
        first.append(shell.rc_file_hint());
        first.append(":");
        lines.push(first);
        lines.push(String::new());
        let mut second = String::from_str("    ");
        second.append(snippet.as_str());
        lines.push(second);
        lines.push(String::new());
        lines.push(String::from_str("Then restart your shell (or `source` the rc file)."));
    } else {
        lines.push(snippet);
    }
    proof {
        reveal_strlit("");
        assert(""@ =~= Seq::<char>::empty());
    }
    assert(strings_view(lines@) =~= init_lines(shell, easyenv_invocation@, interactive));
    lines
}

/// The marker `status` puts after a variable that will not be set.
pub open spec fn status_marker(c: ConfigView, k: Seq<char>) -> Seq<char> {
    if !valid_shell_key(k) {
        " [INVALID: not a valid shell identifier]"@
    } else if key_denied(c, k) {
        " [DENIED: see docs/reference/security.md]"@
    } else {
        ""@
    }
}

pub open spec fn var_line(c: ConfigView, layers: Seq<EnvLayer>, e: (Seq<char>, Seq<char>)) -> Seq<char> {
    "  "@ + e.0 + "="@ + e.1 + "  (from "@ + origin_text(layers, e.0) + ")"@ + status_marker(c, e.0)
}

/// Each file's parse warnings (stderr), then its path (stdout).
pub open spec fn layer_lines(layers: Seq<EnvLayer>, warnings: Seq<Seq<String>>) -> Seq<(bool, Seq<char>)>
    decreases layers.len(),
{
    if layers.len() == 0 {
        Seq::empty()
    } else {
        layer_lines(layers.drop_last(), warnings) + warnings[layers.len() - 1].map_values(
            |w: String| (true, "easyenv: warning: "@ + w@),
        ) + seq![(false, "  "@ + layers.last().source@)]
    }
}

/// What `status` prints for the directory `cwd` and its layers: the files
/// (root first), then every resolved variable, in ascending key order, with
/// the file it came from.
/// Denied and invalid keys are shown, marked, not silently omitted, so
/// users can see why a variable is not loading.
pub open spec fn status_lines(cwd: Seq<char>, layers: Seq<EnvLayer>, warnings: Seq<Seq<String>>, c: ConfigView) -> Seq<(bool, Seq<char>)> {
    if layers.len() == 0 {
        seq![(false, "No .env files active for "@ + cwd)]
    } else {
        seq![(false, "Active .env files for "@ + cwd + " (root-first):"@)] + layer_lines(layers, warnings)
            + seq![(false, ""@), (false, "Resolved variables:"@)]
            + sorted_by_key(merged_pairs(layer_pairs(layers))).map_values(|e: (Seq<char>, Seq<char>)| (false, var_line(c, layers, e)))
    }
}

pub fn status_report(cwd: &str, layers: &[EnvLayer], warnings: &[Vec<String>], config: &Config) -> (lines: Vec<OutLine>)
    requires
        warnings@.len() == layers@.len(),
    ensures
        lines_view(lines@) == status_lines(cwd@, layers@, warnings@.map_values(|w: Vec<String>| w@), config@),
{
    let ghost ws = warnings@.map_values(|w: Vec<String>| w@);
    let mut lines: Vec<OutLine> = Vec::new();
    if layers.len() == 0 {
        let mut m = String::from_str("No .env files active for ");
        m.append(cwd);
        lines.push(OutLine::Stdout(m));
        assert(lines_view(lines@) =~= status_lines(cwd@, layers@, ws, config@));
        return lines;
    }
    let mut head = String::from_str("Active .env files for ");
    head.append(cwd);
    head.append(" (root-first):");
    lines.push(OutLine::Stdout(head));
    let ghost start = lines_view(lines@);
    assert(layers@.take(0) =~= Seq::<EnvLayer>::empty());
    let mut i: usize = 0;
    while i < layers.len()
        invariant
            warnings@.len() == layers@.len(),
            ws == warnings@.map_values(|w: Vec<String>| w@),
            i <= layers@.len(),
            lines_view(lines@) == start + layer_lines(layers@.take(i as int), ws),
        decreases layers.len() - i,
    {
        let ghost before = lines_view(lines@);
        let ws_i = &warnings[i];
        let mut j: usize = 0;
        while j < ws_i.len()
            invariant
                i < layers@.len(),
                ws.len() == layers@.len(),
                ws_i@ == ws[i as int],
                j <= ws_i@.len(),
                lines_view(lines@) == before + ws_i@.take(j as int).map_values(|w: String| (true, "easyenv: warning: "@ + w@)),
            decreases ws_i.len() - j,
        {
            let mut m = String::from_str("easyenv: warning: ");
            m.append(ws_i[j].as_str());
            let ghost lv0 = lines_view(lines@);
            let line = OutLine::Stderr(m);
            let ghost x = line@;
            lines.push(line);
            assert(lines_view(lines@) =~= lv0.push(x));
            assert(ws_i@.take(j + 1).map_values(|w: String| (true, "easyenv: warning: "@ + w@))
                =~= ws_i@.take(j as int).map_values(|w: String| (true, "easyenv: warning: "@ + w@)).push((true, "easyenv: warning: "@ + ws_i@[j as int]@)));
            assert(lines_view(lines@) =~= before + ws_i@.take(j + 1).map_values(|w: String| (true, "easyenv: warning: "@ + w@)));
            j = j + 1;
        }
        assert(ws_i@.take(ws_i@.len() as int) =~= ws_i@);
        let mut p = String::from_str("  ");
        p.append(layers[i].source.as_str());
        let ghost lv0 = lines_view(lines@);
        let line = OutLine::Stdout(p);
        let ghost x = line@;
        lines.push(line);
        assert(lines_view(lines@) =~= lv0.push(x));
        proof {
            let lt = layers@.take(i + 1);
            assert(lt.drop_last() =~= layers@.take(i as int));
            assert(lt.last() == layers@[i as int]);
            assert(lines_view(lines@) =~= start + layer_lines(lt, ws));
        }
        i = i + 1;
    }
    assert(layers@.take(layers@.len() as int) =~= layers@);
    let ghost lv0 = lines_view(lines@);
    lines.push(OutLine::Stdout(String::new()));
    lines.push(OutLine::Stdout(String::from_str("Resolved variables:")));
    proof {
        reveal_strlit("");
        assert(""@ =~= Seq::<char>::empty());
    }
    assert(lines_view(lines@) =~= lv0 + seq![(false, ""@), (false, "Resolved variables:"@)]);
    let merged = merge_layers(layers);
    let sorted = sort_by_key(&merged);
    let ghost me = pairs_view(sorted@);
    let ghost mid = lines_view(lines@);
    let n = sorted.len();
    let mut k: usize = 0;
    while k < n
        invariant
            me == pairs_view(sorted@),
            me == sorted_by_key(merged_pairs(layer_pairs(layers@))),
            n == me.len(),
            k <= n,
            lines_view(lines@) == mid + me.take(k as int).map_values(|e: (Seq<char>, Seq<char>)| (false, var_line(config@, layers@, e))),
        decreases n - k,
    {
        let kv = &sorted[k];
        let key = &kv.0;
        let val = &kv.1;
        let mut m = String::from_str("  ");
        m.append(key.as_str());
        m.append("=");
        m.append(val.as_str());
        m.append("  (from ");
        let o = origin_string(layers, key.as_str());
        m.append(o.as_str());
        m.append(")");
        if !is_valid_shell_key(key.as_str()) {
            m.append(" [INVALID: not a valid shell identifier]");
        } else {
            if config.is_denied_key(key.as_str()) {
                m.append(" [DENIED: see docs/reference/security.md]");
            } else {
                m.append("");
            }
        }
        let ghost lv0 = lines_view(lines@);
        let line = OutLine::Stdout(m);
        let ghost x = line@;
        lines.push(line);
        assert(lines_view(lines@) =~= lv0.push(x));
        proof {
            assert(me[k as int] == (key@, val@));
            assert(x == (false, var_line(config@, layers@, me[k as int])));
            assert(me.take(k + 1).map_values(|e: (Seq<char>, Seq<char>)| (false, var_line(config@, layers@, e)))
                =~= me.take(k as int).map_values(|e: (Seq<char>, Seq<char>)| (false, var_line(config@, layers@, e))).push((false, var_line(config@, layers@, me[k as int]))));
            assert(lines_view(lines@) =~= mid + me.take(k + 1).map_values(|e: (Seq<char>, Seq<char>)| (false, var_line(config@, layers@, e))));
        }
        k = k + 1;
    }
    assert(me.take(n as int) =~= me);
    assert(lines_view(lines@) =~= status_lines(cwd@, layers@, ws, config@));
    lines
}

// --- laws ------------------------------------------------------------------------

/// The variable an operation sets or unsets.
pub open spec fn op_key(op: crate::diff::OpView) -> Seq<char> {
    match op {
        crate::diff::OpView::Export(k, _) => k,
        crate::diff::OpView::Unset(k) => k,
    }
}

/// Every kept entry's key passes the test.
pub proof fn lemma_keep_keys_pass<V>(s: Seq<(Seq<char>, V)>, keep: spec_fn(Seq<char>) -> bool)
    ensures
        forall|j: int| 0 <= j < keep_keys(s, keep).len() ==> keep(#[trigger] keep_keys(s, keep)[j].0),
    decreases s.len(),
{
    if s.len() > 0 {
        lemma_keep_keys_pass(s.drop_last(), keep);
        let k = keep_keys(s, keep);
        let kd = keep_keys(s.drop_last(), keep);
        assert forall|j: int| 0 <= j < k.len() implies keep(#[trigger] k[j].0) by {
            if j < kd.len() {
                assert(k[j] == kd[j]);
            }
        }
    }
}

/// Every `export` the diff emits sets a key of the target.
proof fn lemma_export_ops_keys(t: VarPairs, snap: VarPairs)
    ensures
        forall|j: int| 0 <= j < export_ops(t, snap).len() ==> exists|l: int| 0 <= l < t.len()
            && #[trigger] export_ops(t, snap)[j] == crate::diff::OpView::Export(t[l].0, t[l].1),
    decreases t.len(),
{
    if t.len() > 0 {
        let d = t.drop_last();
        lemma_export_ops_keys(d, snap);
        let e = export_ops(t, snap);
        let ed = export_ops(d, snap);
        assert forall|j: int| 0 <= j < e.len() implies exists|l: int| 0 <= l < t.len()
            && #[trigger] e[j] == crate::diff::OpView::Export(t[l].0, t[l].1) by {
            if j < ed.len() {
                assert(e[j] == ed[j]);
                let l = choose|l: int| 0 <= l < d.len() && #[trigger] ed[j] == crate::diff::OpView::Export(d[l].0, d[l].1);
                assert(d[l] == t[l]);
            } else {
                assert(e[j] == crate::diff::OpView::Export(t[t.len() - 1].0, t[t.len() - 1].1));
            }
        }
    }
}

/// Every restore the diff emits concerns a managed key.
proof fn lemma_restore_ops_keys(m: Seq<EntryView>, t: VarPairs)
    ensures
        forall|j: int| 0 <= j < restore_ops(m, t).len() ==> exists|l: int| 0 <= l < m.len()
            && op_key(#[trigger] restore_ops(m, t)[j]) == m[l].0,
    decreases m.len(),
{
    if m.len() > 0 {
        let d = m.drop_last();
        lemma_restore_ops_keys(d, t);
        let r = restore_ops(m, t);
        let rd = restore_ops(d, t);
        assert forall|j: int| 0 <= j < r.len() implies exists|l: int| 0 <= l < m.len()
            && op_key(#[trigger] r[j]) == m[l].0 by {
            if j < rd.len() {
                assert(r[j] == rd[j]);
                let l = choose|l: int| 0 <= l < d.len() && op_key(#[trigger] rd[j]) == d[l].0;
                assert(d[l] == m[l]);
            } else {
                assert(op_key(r[j]) == m[m.len() - 1].0);
            }
        }
    }
}

/// No `.env` and no remembered state can make easyenv touch a denied name
/// or interpolate anything but a valid shell identifier: every statement
/// an export plan emits -- the exports of `.env` values and the restores
/// and unsets of remembered keys alike -- concerns a key that is a valid
/// shell identifier and is not denied.
pub proof fn law_plan_never_touches_denied_keys(c: ConfigView, prev: Seq<EntryView>, layers: Seq<EnvLayer>, snap: VarPairs)
    ensures
        forall|j: int| 0 <= j < export_ops(target_pairs(c, layers), snap).len() ==> {
            let op = #[trigger] export_ops(target_pairs(c, layers), snap)[j];
            &&& op is Export
            &&& valid_shell_key(op_key(op))
            &&& !key_denied(c, op_key(op))
        },
        forall|j: int| 0 <= j < restore_ops(kept_entries(c, prev), target_pairs(c, layers)).len() ==> {
            let op = #[trigger] restore_ops(kept_entries(c, prev), target_pairs(c, layers))[j];
            &&& valid_shell_key(op_key(op))
            &&& !key_denied(c, op_key(op))
        },
{
    let t = target_pairs(c, layers);
    let m = kept_entries(c, prev);
    lemma_keep_keys_pass(merged_pairs(layer_pairs(layers)), settable(c));
    lemma_keep_keys_pass(prev, settable(c));
    lemma_export_ops_keys(t, snap);
    lemma_restore_ops_keys(m, t);
    assert forall|j: int| 0 <= j < export_ops(t, snap).len() implies {
        let op = #[trigger] export_ops(t, snap)[j];
        &&& op is Export
        &&& valid_shell_key(op_key(op))
        &&& !key_denied(c, op_key(op))
    } by {
        let l = choose|l: int| 0 <= l < t.len() && #[trigger] export_ops(t, snap)[j] == crate::diff::OpView::Export(t[l].0, t[l].1);
        assert(settable(c)(t[l].0));
    }
    assert forall|j: int| 0 <= j < restore_ops(m, t).len() implies {
        let op = #[trigger] restore_ops(m, t)[j];
        &&& valid_shell_key(op_key(op))
        &&& !key_denied(c, op_key(op))
    } by {
        let l = choose|l: int| 0 <= l < m.len() && op_key(#[trigger] restore_ops(m, t)[j]) == m[l].0;
        assert(settable(c)(m[l].0));
    }
}

/// easyenv only touches what a `.env` defines or what it manages: every
/// `export` of the diff sets a key of the target to its target value, and
/// every restore concerns a key it remembered.
pub proof fn law_plan_touches_only_target_and_managed_keys(c: ConfigView, prev: Seq<EntryView>, layers: Seq<EnvLayer>, snap: VarPairs)
    ensures
        forall|j: int| 0 <= j < export_ops(target_pairs(c, layers), snap).len() ==> {
            let op = #[trigger] export_ops(target_pairs(c, layers), snap)[j];
            op matches crate::diff::OpView::Export(k, v) && lookup(target_pairs(c, layers), k) == Some(v)
        },
        forall|j: int| 0 <= j < restore_ops(kept_entries(c, prev), target_pairs(c, layers)).len()
            ==> entries_map(prev).contains_key(op_key(#[trigger] restore_ops(kept_entries(c, prev), target_pairs(c, layers))[j])),
{
    let t = target_pairs(c, layers);
    let m = kept_entries(c, prev);
    law_merge_closest_layer_wins(layer_pairs(layers), Seq::empty());
    lemma_keep_keys_distinct(merged_pairs(layer_pairs(layers)), settable(c));
    lemma_keep_keys_from(prev, settable(c));
    lemma_export_ops_keys(t, snap);
    lemma_restore_ops_keys(m, t);
    assert forall|j: int| 0 <= j < export_ops(t, snap).len() implies {
        let op = #[trigger] export_ops(t, snap)[j];
        op matches crate::diff::OpView::Export(k, v) && lookup(t, k) == Some(v)
    } by {
        let l = choose|l: int| 0 <= l < t.len() && #[trigger] export_ops(t, snap)[j] == crate::diff::OpView::Export(t[l].0, t[l].1);
        crate::keymap::lemma_entries_map_value(t, l);
    }
    assert forall|j: int| 0 <= j < restore_ops(m, t).len() implies entries_map(prev).contains_key(op_key(#[trigger] restore_ops(m, t)[j])) by {
        let l = choose|l: int| 0 <= l < m.len() && op_key(#[trigger] restore_ops(m, t)[j]) == m[l].0;
        let q = choose|q: int| 0 <= q < prev.len() && #[trigger] m[l] == prev[q];
        crate::keymap::lemma_entries_map_dom(prev, prev[q].0);
    }
}

/// The budget holds: at most `WARNING_CAP` budgeted warning lines are
/// written (plus every parse warning and at most one summary line), and
/// nothing is held back silently -- whenever lines are held back, the last
/// line counts them.
pub proof fn law_warning_lines_capped(stale: Seq<Seq<char>>, parse: Seq<Seq<char>>, target: Seq<Seq<char>>)
    ensures
        export_messages(stale, parse, target).len() <= parse.len() + WARNING_CAP + 1,
        stale.len() + target.len() <= WARNING_CAP ==> export_messages(stale, parse, target) == stale + parse + target,
        stale.len() + target.len() > WARNING_CAP ==> export_messages(stale, parse, target).last()
            == more_line((stale.len() + target.len() - WARNING_CAP) as nat),
{
    let m = export_messages(stale, parse, target);
    if stale.len() + target.len() <= WARNING_CAP {
        assert(stale.take(stale.len() as int) =~= stale);
        assert(target.take(target.len() as int) =~= target);
        assert(m =~= stale + parse + target);
    }
}

/// The cap holds for any number of warnings: of `n` budgeted warnings
/// sent to a fresh budget of `WARNING_CAP`, exactly the first
/// `min(n, WARNING_CAP)` are written and the rest only counted, and
/// `finish` closes with the count of those held back when there are any.
pub proof fn law_budget_caps_warnings(msgs: Seq<Seq<char>>)
    ensures
        ({
            let b = emit_all(BudgetView { remaining: WARNING_CAP as nat, suppressed: 0, lines: Seq::empty() }, msgs);
            &&& b.lines == msgs.take(shown(WARNING_CAP as nat, msgs.len()) as int)
            &&& b.suppressed == msgs.len() - shown(WARNING_CAP as nat, msgs.len())
            &&& msgs.len() <= WARNING_CAP ==> finished_lines(b) == msgs
            &&& msgs.len() > WARNING_CAP ==> finished_lines(b)
                == msgs.take(WARNING_CAP as int).push(more_line((msgs.len() - WARNING_CAP) as nat))
        }),
{
    let b0 = BudgetView { remaining: WARNING_CAP as nat, suppressed: 0, lines: Seq::empty() };
    lemma_emit_all(b0, msgs);
    let b = emit_all(b0, msgs);
    assert(b.lines =~= msgs.take(shown(WARNING_CAP as nat, msgs.len()) as int));
    if msgs.len() <= WARNING_CAP {
        assert(msgs.take(msgs.len() as int) =~= msgs);
        assert(finished_lines(b) =~= msgs);
    } else {
        assert(finished_lines(b) =~= msgs.take(WARNING_CAP as int).push(more_line((msgs.len() - WARNING_CAP) as nat)));
    }
}

/// `status` agrees with `export`: a resolved variable carries no marker
/// exactly when `export` would set it (and gives no warning for it), and a
/// valid key is marked DENIED exactly when the same configuration denies
/// it -- so an `allow` entry clears the marker just as it lets the key be
/// set.
pub proof fn law_status_marker_agrees_with_export(c: ConfigView, layers: Seq<EnvLayer>, k: Seq<char>)
    ensures
        (status_marker(c, k) == ""@) == settable(c)(k),
        (status_marker(c, k) == ""@) == (target_message(c, layers)(k) is None),
        valid_shell_key(k) ==> ((status_marker(c, k) == " [DENIED: see docs/reference/security.md]"@) == key_denied(c, k)),
{
    reveal_strlit("");
    reveal_strlit(" [DENIED: see docs/reference/security.md]");
    reveal_strlit(" [INVALID: not a valid shell identifier]");
    assert(""@.len() == 0);
    assert(" [DENIED: see docs/reference/security.md]"@.len() > 0);
    assert(" [INVALID: not a valid shell identifier]"@.len() > 0);
    assert(" [DENIED: see docs/reference/security.md]"@.len() != " [INVALID: not a valid shell identifier]"@.len());
}

/// `init` prints the same snippet on a terminal as off one, for the same
/// shell: the snippet `init_snippet` gives for that shell, naming it.
pub proof fn law_init_prints_the_chosen_shells_snippet(shell: ShellKind, invocation: Seq<char>)
    ensures
        init_lines(shell, invocation, true).len() == 5,
        init_lines(shell, invocation, true)[2] == "    "@ + init_lines(shell, invocation, false)[0],
        init_lines(shell, invocation, false) == seq![crate::shell::init_line(invocation, shell.name())],
        shell.name() == match shell {
            ShellKind::Bash => "bash"@,
            ShellKind::Zsh => "zsh"@,
        },
{
}

} // verus!

//! The enumeration policy: which fields are restricted to a closed,
//! mutable vocabulary, the check of an entry against those vocabularies,
//! and the insertion of new allowed values keeping each vocabulary
//! sorted.

use vstd::prelude::*;

use crate::models::{DataPointV, FieldName, OakEntry, OakEntryV, field_order, strs_view};
use crate::reconcile::{contains_str, eq_str, lemma_filter_push};
use vstd::pervasive::VecAdditionalExecFns;

verus! {

/// Strict lexicographic order on character sequences, by code point.
pub open spec fn lex_lt(a: Seq<char>, b: Seq<char>) -> bool
    decreases a.len(),
{
    if b.len() == 0 {
        false
    } else if a.len() == 0 {
        true
    } else if (a[0] as u32) < (b[0] as u32) {
        true
    } else if (b[0] as u32) < (a[0] as u32) {
        false
    } else {
        lex_lt(a.drop_first(), b.drop_first())
    }
}

/// A list of strings is strictly sorted when every earlier one is
/// lexicographically below every later one.
pub open spec fn sorted_strict(vs: Seq<Seq<char>>) -> bool {
    forall|x: int, y: int| 0 <= x < y < vs.len() ==> lex_lt(#[trigger] vs[x], #[trigger] vs[y])
}

/// Two character sequences are ordered one way or the other, or equal.
pub proof fn lemma_lex_lt_connected(a: Seq<char>, b: Seq<char>)
    ensures
        lex_lt(a, b) || lex_lt(b, a) || a == b,
    decreases a.len(),
{
    if a.len() > 0 && b.len() > 0 && !((a[0] as u32) < (b[0] as u32)) && !((b[0] as u32) < (
    a[0] as u32)) {
        vstd::utf8::char_u32_cast(a[0], a[0] as u32);
        vstd::utf8::char_u32_cast(b[0], b[0] as u32);
        assert(a[0] == b[0]);
        lemma_lex_lt_connected(a.drop_first(), b.drop_first());
        if !lex_lt(a, b) && !lex_lt(b, a) {
            assert(a.drop_first() == b.drop_first());
            assert(a =~= b) by {
                assert(forall|k: int|
                    1 <= k < a.len() ==> #[trigger] a[k] == a.drop_first()[k - 1]);
                assert(forall|k: int|
                    1 <= k < b.len() ==> #[trigger] b[k] == b.drop_first()[k - 1]);
            }
        }
    }
}

/// The lexicographic order is transitive.
pub proof fn lemma_lex_lt_trans(a: Seq<char>, b: Seq<char>, c: Seq<char>)
    requires
        lex_lt(a, b),
        lex_lt(b, c),
    ensures
        lex_lt(a, c),
    decreases a.len(),
{
    if a.len() > 0 && b.len() > 0 && c.len() > 0 {
        if !((a[0] as u32) < (b[0] as u32)) && !((b[0] as u32) < (a[0] as u32)) && !((
        b[0] as u32) < (c[0] as u32)) && !((c[0] as u32) < (b[0] as u32)) {
            lemma_lex_lt_trans(a.drop_first(), b.drop_first(), c.drop_first());
        }
    }
}

/// Compares two strings lexicographically by code point.
fn lex_less(a: &String, b: &String) -> (r: bool)
    ensures
        r == lex_lt(a@, b@),
{
    let la = a.as_str().unicode_len();
    let lb = b.as_str().unicode_len();
    proof {
        assert(a@.skip(0) =~= a@);
        assert(b@.skip(0) =~= b@);
    }
    let mut k: usize = 0;
    while k < la && k < lb
        invariant
            la == a@.len(),
            lb == b@.len(),
            k <= la,
            k <= lb,
            lex_lt(a@, b@) == lex_lt(a@.skip(k as int), b@.skip(k as int)),
        decreases la - k,
    {
        let ca = a.as_str().get_char(k);
        let cb = b.as_str().get_char(k);
        proof {
            assert(a@.skip(k as int)[0] == ca);
            assert(b@.skip(k as int)[0] == cb);
        }
        if (ca as u32) < (cb as u32) {
            return true;
        }
        if (cb as u32) < (ca as u32) {
            return false;
        }
        proof {
            assert(a@.skip(k as int).drop_first() =~= a@.skip(k as int + 1));
            assert(b@.skip(k as int).drop_first() =~= b@.skip(k as int + 1));
        }
        k += 1;
    }
    proof {
        if k == lb {
            assert(b@.skip(k as int).len() == 0);
        } else {
            assert(a@.skip(k as int).len() == 0);
            assert(b@.skip(k as int).len() > 0);
        }
    }
    k == la && k < lb
}

/// The vocabulary of one enumerated field.
pub struct EnumRule {
    /// The field the vocabulary restricts.
    pub field: FieldName,
    /// The allowed values, kept strictly sorted.
    pub allowed: Vec<String>,
}

/// The enumeration policy: at most one vocabulary per field; a field
/// without one is free text.
pub struct EnumerationPolicy {
    /// The vocabularies, one per enumerated field.
    pub rules: Vec<EnumRule>,
}

/// The vocabulary that a rule list assigns to a field, if any.
pub open spec fn spec_allowed_in(rules: Seq<EnumRule>, f: FieldName) -> Option<Seq<Seq<char>>>
    decreases rules.len(),
{
    if rules.len() == 0 {
        None
    } else if rules[0].field == f {
        Some(strs_view(rules[0].allowed@))
    } else {
        spec_allowed_in(rules.drop_first(), f)
    }
}

/// A vocabulary lookup past a clean prefix looks in the rest alone.
proof fn lemma_spec_allowed_skip(rules: Seq<EnumRule>, f: FieldName, j: int)
    requires
        0 <= j <= rules.len(),
        forall|k: int| 0 <= k < j ==> (#[trigger] rules[k]).field != f,
    ensures
        spec_allowed_in(rules, f) == spec_allowed_in(rules.skip(j), f),
    decreases j,
{
    if j == 0 {
        assert(rules.skip(0) =~= rules);
    } else {
        lemma_spec_allowed_skip(rules, f, j - 1);
        assert(rules.skip(j - 1).drop_first() =~= rules.skip(j));
    }
}

/// Replacing the rule that a lookup finds changes that field's
/// vocabulary and no other.
proof fn lemma_spec_allowed_update(rules: Seq<EnumRule>, i: int, rule: EnumRule, g: FieldName)
    requires
        0 <= i < rules.len(),
        rules[i].field == rule.field,
        forall|k: int| 0 <= k < i ==> (#[trigger] rules[k]).field != rule.field,
    ensures
        spec_allowed_in(rules.update(i, rule), g) == if g == rule.field {
            Some(strs_view(rule.allowed@))
        } else {
            spec_allowed_in(rules, g)
        },
    decreases i,
{
    let r2 = rules.update(i, rule);
    if i == 0 {
        assert(r2[0] == rule);
        if g != rule.field {
            assert(r2.drop_first() =~= rules.drop_first());
        }
    } else {
        assert(r2[0] == rules[0]);
        assert(r2.drop_first() =~= rules.drop_first().update(i - 1, rule));
        assert(forall|k: int|
            0 <= k < i - 1 ==> (#[trigger] rules.drop_first()[k]) == rules[k + 1]);
        lemma_spec_allowed_update(rules.drop_first(), i - 1, rule, g);
    }
}

/// Appending a rule for a fresh field adds that field's vocabulary and
/// changes no other.
proof fn lemma_spec_allowed_push(rules: Seq<EnumRule>, rule: EnumRule, g: FieldName)
    requires
        forall|k: int| 0 <= k < rules.len() ==> (#[trigger] rules[k]).field != rule.field,
    ensures
        spec_allowed_in(rules.push(rule), g) == if g == rule.field {
            Some(strs_view(rule.allowed@))
        } else {
            spec_allowed_in(rules, g)
        },
    decreases rules.len(),
{
    let r2 = rules.push(rule);
    if rules.len() == 0 {
        assert(r2[0] == rule);
        assert(r2.drop_first() =~= Seq::<EnumRule>::empty());
        assert(spec_allowed_in(Seq::<EnumRule>::empty(), g) is None);
        assert(spec_allowed_in(r2, g) == if g == rule.field {
            Some(strs_view(rule.allowed@))
        } else {
            spec_allowed_in(Seq::<EnumRule>::empty(), g)
        });
    } else {
        assert(r2[0] == rules[0]);
        assert(r2.drop_first() =~= rules.drop_first().push(rule));
        assert(forall|k: int|
            0 <= k < rules.drop_first().len() ==> (#[trigger] rules.drop_first()[k]) == rules[k
                + 1]);
        lemma_spec_allowed_push(rules.drop_first(), rule, g);
    }
}

/// Replacing a rule by one for the same field, with a sorted
/// vocabulary, keeps the rule list well formed.
proof fn lemma_rules_wf_update(rules: Seq<EnumRule>, i: int, rule: EnumRule)
    requires
        0 <= i < rules.len(),
        rules[i].field == rule.field,
        sorted_strict(strs_view(rule.allowed@)),
        forall|a: int, b: int|
            0 <= a < b < rules.len() ==> (#[trigger] rules[a]).field != (
            #[trigger] rules[b]).field,
        forall|k: int|
            0 <= k < rules.len() ==> sorted_strict(strs_view((#[trigger] rules[k]).allowed@)),
    ensures
        forall|a: int, b: int|
            0 <= a < b < rules.update(i, rule).len() ==> (#[trigger] rules.update(
                i,
                rule,
            )[a]).field != (#[trigger] rules.update(i, rule)[b]).field,
        forall|k: int|
            0 <= k < rules.update(i, rule).len() ==> sorted_strict(
                strs_view((#[trigger] rules.update(i, rule)[k]).allowed@),
            ),
{
    let r2 = rules.update(i, rule);
    assert(forall|x: int| 0 <= x < r2.len() ==> (#[trigger] r2[x]).field == rules[x].field);
    assert forall|k: int|
        0 <= k < r2.len() implies sorted_strict(strs_view((#[trigger] r2[k]).allowed@)) by {
        if k != i {
            assert(r2[k] == rules[k]);
        }
    }
}

/// Appending a rule for a fresh field, with a sorted vocabulary, keeps
/// the rule list well formed.
proof fn lemma_rules_wf_push(rules: Seq<EnumRule>, rule: EnumRule)
    requires
        sorted_strict(strs_view(rule.allowed@)),
        forall|k: int| 0 <= k < rules.len() ==> (#[trigger] rules[k]).field != rule.field,
        forall|a: int, b: int|
            0 <= a < b < rules.len() ==> (#[trigger] rules[a]).field != (
            #[trigger] rules[b]).field,
        forall|k: int|
            0 <= k < rules.len() ==> sorted_strict(strs_view((#[trigger] rules[k]).allowed@)),
    ensures
        forall|a: int, b: int|
            0 <= a < b < rules.push(rule).len() ==> (#[trigger] rules.push(rule)[a]).field != (
            #[trigger] rules.push(rule)[b]).field,
        forall|k: int|
            0 <= k < rules.push(rule).len() ==> sorted_strict(
                strs_view((#[trigger] rules.push(rule)[k]).allowed@),
            ),
{
    let r2 = rules.push(rule);
    assert forall|a: int, b: int|
        0 <= a < b < r2.len() implies (#[trigger] r2[a]).field != (#[trigger] r2[b]).field by {
        if b == rules.len() as int {
            assert(r2[a] == rules[a]);
        } else {
            assert(r2[a] == rules[a] && r2[b] == rules[b]);
        }
    }
    assert forall|k: int|
        0 <= k < r2.len() implies sorted_strict(strs_view((#[trigger] r2[k]).allowed@)) by {
        if k < rules.len() as int {
            assert(r2[k] == rules[k]);
        }
    }
}

/// Index of the rule for a field, if any.
fn find_rule_index(rules: &Vec<EnumRule>, f: FieldName) -> (r: Option<usize>)
    ensures
        match r {
            Some(i) => i < rules@.len() && rules@[i as int].field == f && spec_allowed_in(
                rules@,
                f,
            ) == Some(strs_view(rules@[i as int].allowed@)) && forall|k: int|
                0 <= k < i ==> (#[trigger] rules@[k]).field != f,
            None => spec_allowed_in(rules@, f) is None && forall|k: int|
                0 <= k < rules@.len() ==> (#[trigger] rules@[k]).field != f,
        },
{
    let mut i: usize = 0;
    while i < rules.len()
        invariant
            i <= rules@.len(),
            forall|k: int| 0 <= k < i ==> (#[trigger] rules@[k]).field != f,
        decreases rules@.len() - i,
    {
        if rules[i].field == f {
            proof {
                lemma_spec_allowed_skip(rules@, f, i as int);
                assert(rules@.skip(i as int)[0] == rules@[i as int]);
            }
            return Some(i);
        }
        i += 1;
    }
    proof {
        lemma_spec_allowed_skip(rules@, f, rules@.len() as int);
        assert(rules@.skip(rules@.len() as int) =~= Seq::<EnumRule>::empty());
    }
    None
}

/// Position before which every string is lexicographically below `v`,
/// and at which (if it exists) the string no longer is.
fn find_insert_pos(vs: &Vec<String>, v: &String) -> (r: usize)
    ensures
        r <= vs@.len(),
        forall|j: int| 0 <= j < r ==> lex_lt((#[trigger] vs@[j])@, v@),
        r < vs@.len() ==> !lex_lt(vs@[r as int]@, v@),
{
    let mut i: usize = 0;
    while i < vs.len()
        invariant
            i <= vs@.len(),
            forall|j: int| 0 <= j < i ==> lex_lt((#[trigger] vs@[j])@, v@),
        decreases vs@.len() - i,
    {
        if !lex_less(&vs[i], v) {
            return i;
        }
        i += 1;
    }
    i
}

/// Inserts `v` into the strictly sorted list `vs`, keeping it strictly
/// sorted; a string already present is not duplicated.
fn insert_sorted_unique(vs: &mut Vec<String>, v: String)
    requires
        sorted_strict(strs_view(old(vs)@)),
    ensures
        sorted_strict(strs_view(final(vs)@)),
        forall|x: Seq<char>|
            strs_view(final(vs)@).contains(x) <==> (strs_view(old(vs)@).contains(x) || x == v@),
{
    let ghost ov = strs_view(old(vs)@);
    let i = find_insert_pos(vs, &v);
    if i < vs.len() && eq_str(&vs[i], &v) {
        proof {
            assert(ov[i as int] == v@);
            assert forall|x: Seq<char>|
                strs_view(vs@).contains(x) <==> (ov.contains(x) || x == v@) by {
                if x == v@ {
                    assert(ov[i as int] == x);
                }
            }
        }
        return ;
    }
    let ghost at = i as int;
    vs.insert(i, v);
    proof {
        let nv = strs_view(vs@);
        assert(nv =~= ov.insert(at, v@)) by {
            assert(forall|j: int| 0 <= j < nv.len() ==> #[trigger] nv[j] == vs@[j]@);
        }
        // v is strictly between its neighbours
        if at < ov.len() {
            lemma_lex_lt_connected(ov[at], v@);
        }
        assert forall|x: int, y: int| 0 <= x < y < nv.len() implies lex_lt(
            #[trigger] nv[x],
            #[trigger] nv[y],
        ) by {
            if x < at && y < at {
            } else if x < at && y == at {
                assert(nv[x] == ov[x]);
            } else if x < at && y > at {
                assert(nv[x] == ov[x] && nv[y] == ov[y - 1]);
            } else if x == at && y > at {
                assert(nv[y] == ov[y - 1]);
                if y - 1 > at {
                    lemma_lex_lt_trans(v@, ov[at], ov[y - 1]);
                }
            }
        }
        assert forall|x: Seq<char>|
            nv.contains(x) <==> (ov.contains(x) || x == v@) by {
            if nv.contains(x) {
                let j = choose|j: int| 0 <= j < nv.len() && nv[j] == x;
                if j < at {
                    assert(ov[j] == x);
                } else if j == at {
                } else {
                    assert(ov[j - 1] == x);
                }
            }
            if ov.contains(x) {
                let j = choose|j: int| 0 <= j < ov.len() && ov[j] == x;
                if j < at {
                    assert(nv[j] == x);
                } else {
                    assert(nv[j + 1] == x);
                }
            }
            if x == v@ {
                assert(nv[at] == x);
            }
        }
    }
}

/// One value of an entry that falls outside its field's vocabulary.
pub struct Violation {
    /// The enumerated field.
    pub field: FieldName,
    /// The offending value.
    pub value: String,
}

/// Abstract value of a [`Violation`].
#[verifier::ext_equal]
pub struct ViolationV {
    pub field: FieldName,
    pub value: Seq<char>,
}

impl View for Violation {
    type V = ViolationV;

    open spec fn view(&self) -> ViolationV {
        ViolationV { field: self.field, value: self.value@ }
    }
}

/// Abstract value of a list of violations.
pub open spec fn violations_view(vs: Seq<Violation>) -> Seq<ViolationV> {
    vs.map_values(|v: Violation| v@)
}

/// The violations that one field's data points raise against a policy.
pub open spec fn field_violations(
    p: EnumerationPolicy,
    f: FieldName,
    pts: Seq<DataPointV>,
) -> Seq<ViolationV> {
    match spec_allowed_in(p.rules@, f) {
        None => Seq::empty(),
        Some(av) => pts.filter(|dp: DataPointV| !av.contains(dp.value)).map_values(
            |dp: DataPointV| ViolationV { field: f, value: dp.value },
        ),
    }
}

/// The violations of the fields of `fs`, in their order.
pub open spec fn spec_check_fields(
    p: EnumerationPolicy,
    e: OakEntryV,
    fs: Seq<FieldName>,
) -> Seq<ViolationV>
    decreases fs.len(),
{
    if fs.len() == 0 {
        Seq::empty()
    } else {
        field_violations(p, fs[0], e.field(fs[0])) + spec_check_fields(p, e, fs.drop_first())
    }
}

/// Every value of every enumerated field that is not in that field's
/// vocabulary, in field order and then in data point order.
pub open spec fn spec_check(p: EnumerationPolicy, e: OakEntryV) -> Seq<ViolationV> {
    spec_check_fields(p, e, field_order())
}

impl EnumerationPolicy {
    /// The policy is well formed: one vocabulary per field, each
    /// strictly sorted.
    pub open spec fn wf(self) -> bool {
        &&& forall|a: int, b: int|
            0 <= a < b < self.rules@.len() ==> (#[trigger] self.rules@[a]).field != (
            #[trigger] self.rules@[b]).field
        &&& forall|k: int|
            0 <= k < self.rules@.len() ==> sorted_strict(
                strs_view((#[trigger] self.rules@[k]).allowed@),
            )
    }

    /// The vocabulary of a field, if the field is enumerated.
    pub open spec fn allowed(self, f: FieldName) -> Option<Seq<Seq<char>>> {
        spec_allowed_in(self.rules@, f)
    }

    /// A policy with no enumerated field.
    pub fn new() -> (r: Self)
        ensures
            r.wf(),
            forall|f: FieldName| #[trigger] r.allowed(f) is None,
    {
        EnumerationPolicy { rules: Vec::new() }
    }

    /// The allowed values of a field; absent means the field is free
    /// text.
    pub fn get_allowed_values(&self, field: FieldName) -> (r: Option<&Vec<String>>)
        ensures
            match r {
                Some(vs) => self.allowed(field) == Some(strs_view(vs@)),
                None => self.allowed(field) is None,
            },
    {
        match find_rule_index(&self.rules, field) {
            Some(i) => Some(&self.rules[i].allowed),
            None => None,
        }
    }

    /// The enumerated fields, in rule order.
    pub fn get_enumerated_fields(&self) -> (r: Vec<FieldName>)
        ensures
            r@.len() == self.rules@.len(),
            forall|k: int| 0 <= k < r@.len() ==> #[trigger] r@[k] == self.rules@[k].field,
    {
        let mut out: Vec<FieldName> = Vec::new();
        let mut i: usize = 0;
        while i < self.rules.len()
            invariant
                i <= self.rules@.len(),
                out@.len() == i,
                forall|k: int| 0 <= k < i ==> #[trigger] out@[k] == self.rules@[k].field,
            decreases self.rules@.len() - i,
        {
            out.push(self.rules[i].field);
            i += 1;
        }
        out
    }

    /// Makes `field` enumerated with exactly the given values, sorted;
    /// an existing vocabulary for the field is replaced, every other
    /// field is untouched.
    pub fn set_allowed(&mut self, field: FieldName, values: Vec<String>)
        requires
            old(self).wf(),
        ensures
            final(self).wf(),
            match final(self).allowed(field) {
                Some(av) => forall|x: Seq<char>|
                    av.contains(x) <==> strs_view(values@).contains(x),
                None => false,
            },
            forall|g: FieldName|
                g != field ==> #[trigger] final(self).allowed(g) == old(self).allowed(g),
    {
        let mut sorted: Vec<String> = Vec::new();
        let ghost vv = strs_view(values@);
        proof {
            assert(strs_view(sorted@) =~= Seq::<Seq<char>>::empty());
        }
        let mut j: usize = 0;
        while j < values.len()
            invariant
                vv == strs_view(values@),
                j <= values@.len(),
                sorted_strict(strs_view(sorted@)),
                forall|x: Seq<char>|
                    strs_view(sorted@).contains(x) <==> vv.take(j as int).contains(x),
            decreases values@.len() - j,
        {
            let v = values[j].clone();
            proof {
                assert(v@ == vv[j as int]);
            }
            let ghost before = strs_view(sorted@);
            insert_sorted_unique(&mut sorted, v);
            proof {
                assert forall|x: Seq<char>|
                    strs_view(sorted@).contains(x) <==> vv.take(j as int + 1).contains(x) by {
                    if strs_view(sorted@).contains(x) {
                        if before.contains(x) {
                            let m = choose|m: int|
                                0 <= m < j && vv.take(j as int)[m] == x;
                            assert(vv.take(j as int + 1)[m] == x);
                        } else {
                            assert(vv.take(j as int + 1)[j as int] == x);
                        }
                    }
                    if vv.take(j as int + 1).contains(x) {
                        let m = choose|m: int|
                            0 <= m <= j as int && #[trigger] vv.take(j as int + 1)[m] == x;
                        if m < j {
                            assert(vv.take(j as int)[m] == x);
                        }
                    }
                }
            }
            j += 1;
        }
        proof {
            assert(vv.take(values@.len() as int) =~= vv);
        }
        let rule = EnumRule { field, allowed: sorted };
        match find_rule_index(&self.rules, field) {
            Some(i) => {
                let ghost old_rules = self.rules@;
                proof {
                    lemma_spec_allowed_update(old_rules, i as int, rule, field);
                    lemma_rules_wf_update(old_rules, i as int, rule);
                }
                self.rules.set(i, rule);
                proof {
                    assert forall|g: FieldName|
                        g != field implies #[trigger] self.allowed(g) == old(self).allowed(
                        g,
                    ) by {
                        lemma_spec_allowed_update(old_rules, i as int, rule, g);
                    }
                }
            },
            None => {
                let ghost old_rules = self.rules@;
                proof {
                    lemma_spec_allowed_push(old_rules, rule, field);
                    lemma_rules_wf_push(old_rules, rule);
                }
                self.rules.push(rule);
                proof {
                    assert forall|g: FieldName|
                        g != field implies #[trigger] self.allowed(g) == old(self).allowed(
                        g,
                    ) by {
                        lemma_spec_allowed_push(old_rules, rule, g);
                    }
                }
            },
        }
    }

    /// Inserts a new allowed value for an enumerated field, keeping the
    /// vocabulary sorted.  Fails, leaving the policy unchanged, when the
    /// field is not enumerated or the value is already allowed.
    pub fn add_enumeration_value(&mut self, field: FieldName, value: &str) -> (r: Result<
        (),
        PolicyError,
    >)
        requires
            old(self).wf(),
        ensures
            final(self).wf(),
            match r {
                Ok(()) => old(self).allowed(field) matches Some(oav)
                    && !oav.contains(value@)
                    && (final(self).allowed(field) matches Some(av) && forall|x: Seq<char>|
                        av.contains(x) <==> (oav.contains(x) || x == value@)),
                Err(PolicyError::FieldNotEnumerated) => old(self).allowed(field) is None
                    && final(self).rules@ == old(self).rules@,
                Err(PolicyError::ValueAlreadyPresent) => (old(self).allowed(field)
                    matches Some(oav) && oav.contains(value@)) && final(self).rules@ == old(
                    self,
                ).rules@,
            },
            forall|g: FieldName|
                g != field ==> #[trigger] final(self).allowed(g) == old(self).allowed(g),
    {
        let v: String = value.to_owned();
        match find_rule_index(&self.rules, field) {
            None => Err(PolicyError::FieldNotEnumerated),
            Some(i) => {
                if contains_str(&self.rules[i].allowed, &v) {
                    return Err(PolicyError::ValueAlreadyPresent);
                }
                let mut allowed = self.rules[i].allowed.clone();
                proof {
                    crate::models::lemma_strings_clone_view(self.rules@[i as int].allowed@, allowed@);
                }
                insert_sorted_unique(&mut allowed, v);
                let rule = EnumRule { field, allowed };
                let ghost old_rules = self.rules@;
                proof {
                    lemma_spec_allowed_update(old_rules, i as int, rule, field);
                    lemma_rules_wf_update(old_rules, i as int, rule);
                }
                self.rules.set(i, rule);
                proof {
                    assert forall|g: FieldName|
                        g != field implies #[trigger] self.allowed(g) == old(self).allowed(
                        g,
                    ) by {
                        lemma_spec_allowed_update(old_rules, i as int, rule, g);
                    }
                }
                Ok(())
            },
        }
    }

    /// Lists every value of every enumerated field of the entry that is
    /// not in that field's vocabulary, in field order.
    pub fn check(&self, entry: &OakEntry) -> (r: Vec<Violation>)
        ensures
            violations_view(r@) == spec_check(*self, entry@),
    {
        let fields = crate::models::all_fields();
        let ghost fsv = field_order();
        let ghost total = spec_check(*self, entry@);
        let mut out: Vec<Violation> = Vec::new();
        proof {
            assert(fsv.skip(0) =~= fsv);
            assert(violations_view(out@) =~= Seq::<ViolationV>::empty());
            assert(Seq::<ViolationV>::empty() + spec_check_fields(*self, entry@, fsv)
                =~= spec_check_fields(*self, entry@, fsv));
        }
        let mut k: usize = 0;
        while k < fields.len()
            invariant
                fields@ == fsv,
                fsv == field_order(),
                total == spec_check(*self, entry@),
                k <= fsv.len(),
                violations_view(out@) + spec_check_fields(*self, entry@, fsv.skip(k as int))
                    == total,
            decreases fields@.len() - k,
        {
            let f = fields[k];
            proof {
                assert(fsv.skip(k as int)[0] == fsv[k as int]);
                assert(fsv.skip(k as int).drop_first() =~= fsv.skip(k as int + 1));
            }
            let ghost rest = spec_check_fields(*self, entry@, fsv.skip(k as int + 1));
            match find_rule_index(&self.rules, f) {
                None => {
                    proof {
                        assert(field_violations(*self, f, entry@.field(f))
                            =~= Seq::<ViolationV>::empty());
                        assert(Seq::<ViolationV>::empty() + rest =~= rest);
                    }
                },
                Some(ri) => {
                    let ghost av = strs_view(self.rules@[ri as int].allowed@);
                    let ghost p = |dp: DataPointV| !av.contains(dp.value);
                    let ghost mk = |dp: DataPointV| ViolationV { field: f, value: dp.value };
                    let pts = entry.field(f);
                    let ghost pv = entry@.field(f);
                    let ghost base = violations_view(out@);
                    proof {
                        assert(pv.take(0) =~= Seq::<DataPointV>::empty());
                        assert(Seq::<DataPointV>::empty().filter(p)
                            =~= Seq::<DataPointV>::empty()) by {
                            reveal(Seq::filter);
                        }
                        assert(base + pv.take(0).filter(p).map_values(mk) =~= base);
                    }
                    let mut j: usize = 0;
                    while j < pts.len()
                        invariant
                            av == strs_view(self.rules@[ri as int].allowed@),
                            ri < self.rules@.len(),
                            p == (|dp: DataPointV| !av.contains(dp.value)),
                            mk == (|dp: DataPointV| ViolationV { field: f, value: dp.value }),
                            pv == crate::models::pts_view(pts@),
                            j <= pts@.len(),
                            violations_view(out@) == base + pv.take(j as int).filter(
                                p,
                            ).map_values(mk),
                        decreases pts@.len() - j,
                    {
                        proof {
                            assert(pv.take(j as int + 1) =~= pv.take(j as int).push(
                                pv[j as int],
                            ));
                            lemma_filter_push(pv.take(j as int), pv[j as int], p);
                            assert(pts@[j as int]@ == pv[j as int]);
                        }
                        if !contains_str(&self.rules[ri].allowed, &pts[j].value) {
                            let viol = Violation { field: f, value: pts[j].value.clone() };
                            let ghost prev = out@;
                            out.push(viol);
                            proof {
                                assert(violations_view(out@) =~= violations_view(prev).push(
                                    viol@,
                                ));
                                assert((pv.take(j as int).filter(p) + seq![pv[j as int]])
                                    .map_values(mk) =~= pv.take(j as int).filter(p).map_values(
                                    mk,
                                ).push(mk(pv[j as int])));
                                assert(violations_view(out@) =~= base + pv.take(j as int + 1)
                                    .filter(p).map_values(mk));
                            }
                        } else {
                            proof {
                                assert(pv.take(j as int + 1).filter(p) =~= pv.take(
                                    j as int,
                                ).filter(p));
                            }
                        }
                        j += 1;
                    }
                    proof {
                        assert(pv.take(pts@.len() as int) =~= pv);
                        assert(field_violations(*self, f, pv) == pv.filter(p).map_values(mk));
                        assert((base + pv.filter(p).map_values(mk)) + rest =~= base + (pv.filter(
                            p,
                        ).map_values(mk) + rest));
                    }
                },
            }
            k += 1;
        }
        proof {
            assert(fsv.skip(fsv.len() as int) =~= Seq::<FieldName>::empty());
            assert(violations_view(out@) + Seq::<ViolationV>::empty() =~= violations_view(out@));
        }
        out
    }
}

/// Why a vocabulary mutation was refused.
pub enum PolicyError {
    /// The field has no vocabulary: it is free text.
    FieldNotEnumerated,
    /// The value is already allowed.
    ValueAlreadyPresent,
}

} // verus!

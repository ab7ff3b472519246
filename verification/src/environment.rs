//! A snapshot of the process environment with per-key usage tracking and an
//! override mechanism that lets an operator pre-empt derived values.

use vstd::prelude::*;

use crate::util::{has_prefix, str_eq, ParseFromEnv};

verus! {

/// Marker that starts every override variable name.
pub const BUILT_OVERRIDE_PREFIX: &'static str = "BUILT_OVERRIDE_";

/// First index of `k` in `keys`, `-1` if absent.
pub open spec fn key_idx(keys: Seq<Seq<char>>, k: Seq<char>) -> int
    decreases keys.len(),
{
    if keys.len() == 0 {
        -1
    } else if keys[0] == k {
        0
    } else {
        let r = key_idx(keys.skip(1), k);
        if r < 0 {
            -1
        } else {
            r + 1
        }
    }
}

pub proof fn lemma_key_idx(keys: Seq<Seq<char>>, k: Seq<char>)
    ensures
        key_idx(keys, k) == -1 || 0 <= key_idx(keys, k) < keys.len(),
        key_idx(keys, k) >= 0 ==> keys[key_idx(keys, k)] == k,
        forall|j: int| 0 <= j < key_idx(keys, k) ==> keys[j] != k,
        key_idx(keys, k) == -1 ==> forall|j: int| 0 <= j < keys.len() ==> keys[j] != k,
    decreases keys.len(),
{
    if keys.len() > 0 && keys[0] != k {
        let t = keys.skip(1);
        lemma_key_idx(t, k);
        assert(forall|j: int| 1 <= j < keys.len() ==> keys[j] == t[j - 1]);
        if key_idx(t, k) >= 0 {
            assert(forall|j: int| 1 <= j < key_idx(keys, k) ==> #[trigger] t[j - 1] != k);
        } else {
            assert(forall|j: int| 1 <= j < keys.len() ==> #[trigger] t[j - 1] != k);
        }
    }
}

/// The first occurrence determines `key_idx`.
pub proof fn lemma_key_idx_at(keys: Seq<Seq<char>>, k: Seq<char>, i: int)
    requires
        0 <= i < keys.len(),
        keys[i] == k,
        forall|j: int| 0 <= j < i ==> keys[j] != k,
    ensures
        key_idx(keys, k) == i,
    decreases i,
{
    if i > 0 {
        let t = keys.skip(1);
        assert(forall|j: int| 0 <= j < i - 1 ==> t[j] == keys[j + 1] && keys[j + 1] != k);
        assert(t[i - 1] == keys[i]);
        lemma_key_idx_at(t, k, i - 1);
    }
}

/// The override-prefixed keys still `Unused`, in order.
pub open spec fn unused_list(
    keys: Seq<Seq<char>>,
    states: Seq<EnvironmentValue>,
    p: Seq<char>,
) -> Seq<Seq<char>>
    decreases keys.len(),
{
    if keys.len() == 0 {
        Seq::empty()
    } else {
        let init = unused_list(keys.drop_last(), states.drop_last(), p);
        if p.is_prefix_of(keys.last()) && states.last() is Unused {
            init.push(keys.last())
        } else {
            init
        }
    }
}

/// The `Used` keys with the prefix stripped, in order.
pub open spec fn used_list(
    keys: Seq<Seq<char>>,
    states: Seq<EnvironmentValue>,
    p: Seq<char>,
) -> Seq<Seq<char>>
    decreases keys.len(),
{
    if keys.len() == 0 {
        Seq::empty()
    } else {
        let init = used_list(keys.drop_last(), states.drop_last(), p);
        if states.last() is Used {
            init.push(keys.last().skip(p.len() as int))
        } else {
            init
        }
    }
}

/// The accepted values of a per-key outcome sequence, in order.
pub open spec fn collect_somes(sel: Seq<Option<Seq<char>>>) -> Seq<Seq<char>>
    decreases sel.len(),
{
    if sel.len() == 0 {
        Seq::empty()
    } else {
        let init = collect_somes(sel.drop_last());
        match sel.last() {
            Some(v) => init.push(v),
            None => init,
        }
    }
}

/// Usage state of one environment variable, a three-value lattice.
/// A key's state only ever moves forward: `Unused` to `Queried` to `Used`.
#[derive(Clone, Copy, Debug, Default, PartialEq, Eq, Structural)]
pub enum EnvironmentValue {
    #[default]
    Unused,
    Queried,
    Used,
}

impl EnvironmentValue {
    /// Position of a state in the lattice.
    pub open spec fn rank(self) -> int {
        match self {
            EnvironmentValue::Unused => 0,
            EnvironmentValue::Queried => 1,
            EnvironmentValue::Used => 2,
        }
    }

    /// Lattice order: `self` is at or below `other`.
    pub open spec fn spec_le(self, other: EnvironmentValue) -> bool {
        self.rank() <= other.rank()
    }

    /// The state after a plain lookup: an untouched key becomes `Queried`,
    /// anything further along is left alone.
    pub open spec fn spec_queried(self) -> EnvironmentValue {
        if self is Unused {
            EnvironmentValue::Queried
        } else {
            self
        }
    }

    pub fn upgrade_to_queried(&mut self)
        ensures
            *final(self) == old(self).spec_queried(),
            old(self).spec_le(*final(self)),
    {
        if matches!(self, EnvironmentValue::Unused) {
            *self = EnvironmentValue::Queried;
        }
    }

    pub fn upgrade_to_used(&mut self)
        ensures
            *final(self) == EnvironmentValue::Used,
            old(self).spec_le(*final(self)),
    {
        *self = EnvironmentValue::Used;
    }

    pub fn is_unused(&self) -> (r: bool)
        ensures
            r == (*self is Unused),
    {
        matches!(self, EnvironmentValue::Unused)
    }

    pub fn is_used(&self) -> (r: bool)
        ensures
            r == (*self is Used),
    {
        matches!(self, EnvironmentValue::Used)
    }
}

/// One captured environment variable with its usage state.
struct EnvEntry {
    key: String,
    value: String,
    state: EnvironmentValue,
}

/// Error raised when an override variable is present but its text does not
/// parse as the requested type.  It names the logical field and the
/// offending value, since a bad override is an operator mistake that must
/// not silently degrade.
#[derive(Debug, PartialEq, Eq)]
pub struct OverrideParseError {
    pub key: String,
    pub value: String,
}

/// An immutable capture of the process environment: a mapping from
/// variable name to value, each with a usage state that only ever moves
/// forward.  Lookups go through `get` and the override machinery; values
/// and keys never change after construction.
pub struct EnvironmentMap {
    entries: Vec<EnvEntry>,
    override_prefix: String,
}

impl EnvironmentMap {
    /// The variable names, in capture order.
    pub closed spec fn keys(self) -> Seq<Seq<char>> {
        self.entries@.map_values(|e: EnvEntry| e.key@)
    }

    /// The variable values, positionally matching `keys`.
    pub closed spec fn vals(self) -> Seq<Seq<char>> {
        self.entries@.map_values(|e: EnvEntry| e.value@)
    }

    /// The usage states, positionally matching `keys`.
    pub closed spec fn states(self) -> Seq<EnvironmentValue> {
        self.entries@.map_values(|e: EnvEntry| e.state)
    }

    /// The package-specific override prefix, marker plus package name.
    pub closed spec fn prefix(self) -> Seq<char> {
        self.override_prefix@
    }

    pub open spec fn map_has(self, k: Seq<char>) -> bool {
        key_idx(self.keys(), k) >= 0
    }

    pub open spec fn map_val(self, k: Seq<char>) -> Seq<char> {
        self.vals()[key_idx(self.keys(), k)]
    }

    pub open spec fn map_state(self, k: Seq<char>) -> EnvironmentValue {
        self.states()[key_idx(self.keys(), k)]
    }

    /// Keys are unique, and only override-prefixed keys can ever have been
    /// consumed as overrides.  Established by the constructor and kept by
    /// every operation.
    pub closed spec fn wf(self) -> bool {
        &&& forall|i: int, j: int|
            0 <= i < j < self.entries@.len() ==> self.entries@[i].key@ != self.entries@[j].key@
        &&& forall|i: int|
            0 <= i < self.entries@.len() && (#[trigger] self.entries@[i].state) is Used
                ==> self.override_prefix@.is_prefix_of(self.entries@[i].key@)
    }

    /// Builds the snapshot from captured name/value pairs.  The package
    /// name must be among them (`CARGO_PKG_NAME`); it determines the
    /// override prefix.  All states start out `Unused`.
    pub fn new(entries: Vec<(String, String)>) -> (r: Option<EnvironmentMap>)
        requires
            forall|i: int, j: int|
                0 <= i < j < entries@.len() ==> entries@[i].0@ != entries@[j].0@,
        ensures
            match r {
                Some(m) => {
                    &&& m.wf()
                    &&& m.keys().len() == entries@.len()
                    &&& m.vals().len() == entries@.len()
                    &&& m.states().len() == entries@.len()
                    &&& forall|i: int|
                        0 <= i < entries@.len() ==> m.keys()[i] == entries@[i].0@
                            && m.vals()[i] == entries@[i].1@ && m.states()[i] is Unused
                    &&& m.map_has("CARGO_PKG_NAME"@)
                    &&& m.prefix() == "BUILT_OVERRIDE_"@ + m.map_val("CARGO_PKG_NAME"@) + "_"@
                },
                None => forall|i: int|
                    0 <= i < entries@.len() ==> entries@[i].0@ != "CARGO_PKG_NAME"@,
            },
    {
        let n = entries.len();
        let mut es: Vec<EnvEntry> = Vec::new();
        let mut i: usize = 0;
        let mut pkg_name: Option<String> = None;
        let ghost target = "CARGO_PKG_NAME"@;
        let ghost mut found: int = 0;
        while i < n
            invariant
                i <= n,
                n == entries@.len(),
                es@.len() == i,
                target == "CARGO_PKG_NAME"@,
                forall|j: int|
                    0 <= j < i ==> (#[trigger] es@[j]).key@ == entries@[j].0@ && es@[j].value@
                        == entries@[j].1@ && es@[j].state is Unused,
                pkg_name matches Some(v) ==> 0 <= found < i && entries@[found].0@ == target
                    && entries@[found].1@ == v@,
                pkg_name is None ==> forall|j: int| 0 <= j < i ==> entries@[j].0@ != target,
            decreases n - i,
        {
            let p = &entries[i];
            if str_eq(p.0.as_str(), "CARGO_PKG_NAME") {
                pkg_name = Some(p.1.clone());
                proof {
                    found = i as int;
                }
            }
            es.push(EnvEntry { key: p.0.clone(), value: p.1.clone(), state: EnvironmentValue::Unused });
            i = i + 1;
        }
        match pkg_name {
            None => None,
            Some(name) => {
                let mut prefix = String::from_str(BUILT_OVERRIDE_PREFIX);
                prefix.append(name.as_str());
                prefix.append("_");
                let m = EnvironmentMap { entries: es, override_prefix: prefix };
                proof {
                    let j = found;
                    assert(m.keys()[j] == target);
                    assert(forall|k: int| 0 <= k < j ==> m.keys()[k] == entries@[k].0@);
                    assert(forall|k: int| 0 <= k < j ==> entries@[k].0@ != target);
                    lemma_key_idx_at(m.keys(), target, j);
                    assert(m.map_val(target) == name@);
                }
                Some(m)
            },
        }
    }

    /// Derives the override variable name for a logical field.
    pub fn override_key(&self, key: &str) -> (r: String)
        ensures
            r@ == self.prefix() + key@,
    {
        let mut prefixed_key = self.override_prefix.clone();
        prefixed_key.append(key);
        prefixed_key
    }

    /// Looks a variable up.  On a hit the key's state is upgraded from
    /// `Unused` to `Queried` (states further along are left alone) and the
    /// value is returned; on a miss nothing changes.  Keys, values and the
    /// prefix are untouched either way, and no state ever moves backward.
    pub fn get(&mut self, key: &str) -> (r: Option<String>)
        requires
            old(self).wf(),
        ensures
            final(self).wf(),
            final(self).keys() == old(self).keys(),
            final(self).vals() == old(self).vals(),
            final(self).prefix() == old(self).prefix(),
            match r {
                Some(v) => old(self).map_has(key@) && v@ == old(self).map_val(key@)
                    && final(self).states() == old(self).states().update(
                    key_idx(old(self).keys(), key@),
                    old(self).map_state(key@).spec_queried(),
                ),
                None => !old(self).map_has(key@) && final(self).states() == old(self).states(),
            },
            forall|i: int|
                0 <= i < old(self).states().len() ==> old(self).states()[i].spec_le(
                    #[trigger] final(self).states()[i],
                ),
    {
        let n = self.entries.len();
        let mut i: usize = 0;
        while i < n
            invariant
                i <= n,
                n == self.entries@.len(),
                *self == *old(self),
                old(self).wf(),
                forall|j: int| 0 <= j < i ==> (#[trigger] self.entries@[j]).key@ != key@,
            decreases n - i,
        {
            if str_eq(self.entries[i].key.as_str(), key) {
                proof {
                    assert(forall|j: int| 0 <= j < i ==> old(self).keys()[j] != key@);
                    lemma_key_idx_at(old(self).keys(), key@, i as int);
                }
                let e = &self.entries[i];
                let k = e.key.clone();
                let v = e.value.clone();
                let mut st = e.state;
                st.upgrade_to_queried();
                let out = v.clone();
                self.entries[i] = EnvEntry { key: k, value: v, state: st };
                proof {
                    assert(self.keys() =~= old(self).keys());
                    assert(self.vals() =~= old(self).vals());
                    assert(self.states() =~= old(self).states().update(
                        i as int,
                        old(self).states()[i as int].spec_queried(),
                    ));
                    assert(forall|j: int|
                        0 <= j < self.entries@.len() ==> (#[trigger] self.entries@[j]).key@
                            == old(self).entries@[j].key@);
                    assert(forall|j: int|
                        0 <= j < self.entries@.len() && (#[trigger] self.entries@[j]).state is Used
                            ==> old(self).entries@[j].state is Used);
                    assert(self.wf());
                }
                return Some(out);
            }
            i = i + 1;
        }
        proof {
            assert(forall|j: int|
                0 <= j < old(self).keys().len() ==> old(self).keys()[j] != key@);
            lemma_key_idx(old(self).keys(), key@);
        }
        None
    }

    /// Position of a key, without touching any usage state.
    fn find_idx(&self, k: &str) -> (r: Option<usize>)
        ensures
            match r {
                Some(i) => key_idx(self.keys(), k@) == i && 0 <= i < self.keys().len()
                    && self.keys()[i as int] == k@,
                None => key_idx(self.keys(), k@) == -1,
            },
    {
        let n = self.entries.len();
        let mut i: usize = 0;
        while i < n
            invariant
                i <= n,
                n == self.entries@.len(),
                forall|j: int| 0 <= j < i ==> (#[trigger] self.entries@[j]).key@ != k@,
            decreases n - i,
        {
            if str_eq(self.entries[i].key.as_str(), k) {
                proof {
                    assert(forall|j: int| 0 <= j < i ==> self.keys()[j] != k@);
                    lemma_key_idx_at(self.keys(), k@, i as int);
                }
                return Some(i);
            }
            i = i + 1;
        }
        proof {
            assert(forall|j: int| 0 <= j < self.keys().len() ==> self.keys()[j] != k@);
            lemma_key_idx(self.keys(), k@);
        }
        None
    }

    /// Resolves an override for the logical field `key`.  Absence is
    /// `Ok(None)` and records nothing.  A present override that parses as
    /// `T` marks the variable `Used` and hands the value back; one that
    /// does not parse is a configuration error reported with the field
    /// name and the offending text, the variable ending merely `Queried`.
    pub fn get_override_var<'a, T: ParseFromEnv<'a>>(&'a mut self, key: &str) -> (r: Result<
        Option<T>,
        OverrideParseError,
    >)
        requires
            old(self).wf(),
        ensures
            final(self).wf(),
            final(self).keys() == old(self).keys(),
            final(self).vals() == old(self).vals(),
            final(self).prefix() == old(self).prefix(),
            match r {
                Ok(None) => !old(self).map_has(old(self).prefix() + key@) && final(self).states()
                    == old(self).states(),
                Ok(Some(t)) => {
                    let okey = old(self).prefix() + key@;
                    &&& old(self).map_has(okey)
                    &&& T::parse_spec(old(self).map_val(okey)) == Some(t.deep_view())
                    &&& final(self).states() == old(self).states().update(
                        key_idx(old(self).keys(), okey),
                        EnvironmentValue::Used,
                    )
                },
                Err(e) => {
                    let okey = old(self).prefix() + key@;
                    &&& old(self).map_has(okey)
                    &&& T::parse_spec(old(self).map_val(okey)) is None
                    &&& e.key@ == key@
                    &&& e.value@ == old(self).map_val(okey)
                    &&& final(self).states() == old(self).states().update(
                        key_idx(old(self).keys(), okey),
                        old(self).map_state(okey).spec_queried(),
                    )
                },
            },
            forall|i: int|
                0 <= i < old(self).states().len() ==> old(self).states()[i].spec_le(
                    #[trigger] final(self).states()[i],
                ),
    {
        let okey_s = self.override_key(key);
        match self.find_idx(okey_s.as_str()) {
            None => Ok(None),
            Some(i) => {
                let tmp = self.entries[i].value.clone();
                let parses = T::parse_check(tmp.as_str());
                let e = &self.entries[i];
                let k2 = e.key.clone();
                let v2 = e.value.clone();
                let mut st = e.state;
                if parses {
                    st.upgrade_to_used();
                } else {
                    st.upgrade_to_queried();
                }
                self.entries[i] = EnvEntry { key: k2, value: v2, state: st };
                proof {
                    assert(self.keys() =~= old(self).keys());
                    assert(self.vals() =~= old(self).vals());
                    assert(okey_s@ == old(self).prefix() + key@);
                    assert(old(self).map_val(okey_s@) == old(self).vals()[i as int]);
                    assert((old(self).prefix() + key@).subrange(
                        0,
                        old(self).prefix().len() as int,
                    ) =~= old(self).prefix());
                    assert(old(self).prefix().is_prefix_of(okey_s@));
                    assert(forall|j: int|
                        0 <= j < self.entries@.len() ==> (#[trigger] self.entries@[j]).key@
                            == old(self).entries@[j].key@);
                    assert(forall|j: int|
                        0 <= j < self.entries@.len() && j != i
                            && (#[trigger] self.entries@[j]).state is Used ==> old(
                            self,
                        ).entries@[j].state is Used);
                    assert(self.wf());
                }
                if parses {
                    proof {
                        assert(self.states() =~= old(self).states().update(
                            i as int,
                            EnvironmentValue::Used,
                        ));
                    }
                    let v: &'a str = self.entries[i].value.as_str();
                    match T::parse_from_env(v) {
                        Ok(t) => Ok(Some(t)),
                        Err(_) => {
                            proof {
                                assert(false);
                            }
                            Ok(None)
                        },
                    }
                } else {
                    proof {
                        assert(self.states() =~= old(self).states().update(
                            i as int,
                            old(self).states()[i as int].spec_queried(),
                        ));
                    }
                    Err(OverrideParseError { key: key.to_owned(), value: tmp })
                }
            },
        }
    }

    /// The key at position `i`, as captured.
    pub closed spec fn key_at(self, i: int) -> String {
        self.entries@[i].key
    }

    /// The per-key outcomes `sel` are possible results of applying `f`
    /// to every key of the snapshot in order.
    pub open spec fn outcomes_of<F: Fn(String) -> Option<String>>(
        self,
        f: F,
        sel: Seq<Option<Seq<char>>>,
    ) -> bool {
        &&& sel.len() == self.keys().len()
        &&& forall|i: int|
            0 <= i < sel.len() ==> match #[trigger] sel[i] {
                Some(v) => exists|w: String|
                    #[trigger] f.ensures((self.key_at(i),), Some(w)) && w@ == v,
                None => f.ensures((self.key_at(i),), None),
            }
    }

    /// Applies `f` to every captured key in order.  Some outcome
    /// sequence of the closure over the keys describes the call exactly:
    /// the collected values are the accepted outcomes in capture order,
    /// each accepted key is marked queried, each rejected key keeps its
    /// state, and keys, values and the prefix are untouched.
    pub fn filter_map_keys<F: Fn(String) -> Option<String>>(&mut self, f: F) -> (r: Vec<String>)
        requires
            old(self).wf(),
            forall|k: String| #[trigger] f.requires((k,)),
        ensures
            final(self).wf(),
            final(self).keys() == old(self).keys(),
            final(self).vals() == old(self).vals(),
            final(self).prefix() == old(self).prefix(),
            forall|i: int|
                0 <= i < old(self).states().len() ==> old(self).states()[i].spec_le(
                    #[trigger] final(self).states()[i],
                ),
            exists|sel: Seq<Option<Seq<char>>>|
                #![trigger collect_somes(sel)]
                {
                    &&& old(self).outcomes_of(f, sel)
                    &&& r.deep_view() == collect_somes(sel)
                    &&& final(self).states().len() == sel.len()
                    &&& forall|i: int|
                        0 <= i < sel.len() ==> #[trigger] final(self).states()[i] == (
                        if sel[i] is Some {
                            old(self).states()[i].spec_queried()
                        } else {
                            old(self).states()[i]
                        })
                },
    {
        let mut out: Vec<String> = Vec::new();
        let ghost mut sel: Seq<Option<Seq<char>>> = Seq::empty();
        let n = self.entries.len();
        let mut i: usize = 0;
        while i < n
            invariant
                i <= n,
                n == self.entries@.len(),
                old(self).wf(),
                forall|k: String| #[trigger] f.requires((k,)),
                self.wf(),
                self.keys() == old(self).keys(),
                self.vals() == old(self).vals(),
                self.prefix() == old(self).prefix(),
                self.states().len() == old(self).states().len(),
                sel.len() == i,
                forall|a: int|
                    0 <= a < n ==> #[trigger] self.entries@[a].key == old(self).entries@[a].key,
                forall|a: int|
                    0 <= a < i ==> match #[trigger] sel[a] {
                        Some(v) => exists|w: String|
                            #[trigger] f.ensures((old(self).key_at(a),), Some(w)) && w@ == v,
                        None => f.ensures((old(self).key_at(a),), None),
                    },
                out.deep_view() == collect_somes(sel),
                forall|a: int|
                    0 <= a < i ==> #[trigger] self.states()[a] == (
                    if sel[a] is Some {
                        old(self).states()[a].spec_queried()
                    } else {
                        old(self).states()[a]
                    }),
                forall|a: int| i <= a < n ==> #[trigger] self.states()[a] == old(self).states()[a],
            decreases n - i,
        {
            let k = self.entries[i].key.clone();
            let ghost prev_sel = sel;
            let ghost prev = out.deep_view();
            match f(k) {
                Some(w) => {
                    let ghost wval = w;
                    proof {
                        assert(f.ensures((old(self).key_at(i as int),), Some(wval)));
                        sel = sel.push(Some(wval@));
                    }
                    out.push(w);
                    let e = &self.entries[i];
                    let k2 = e.key.clone();
                    let v2 = e.value.clone();
                    let mut st = e.state;
                    st.upgrade_to_queried();
                    let ghost mid = *self;
                    self.entries[i] = EnvEntry { key: k2, value: v2, state: st };
                    proof {
                        assert(sel.drop_last() =~= prev_sel);
                        assert(sel.last() == Some(wval@));
                        assert(collect_somes(sel) =~= prev.push(wval@));
                        assert(out.deep_view() =~= prev.push(wval@));
                        assert(self.keys() =~= mid.keys());
                        assert(self.vals() =~= mid.vals());
                        assert(self.states() =~= mid.states().update(
                            i as int,
                            mid.states()[i as int].spec_queried(),
                        ));
                        assert(forall|a: int|
                            0 <= a < self.entries@.len() ==> (#[trigger] self.entries@[a]).key
                                == mid.entries@[a].key);
                        assert(forall|a: int|
                            0 <= a < self.entries@.len() && (#[trigger] self.entries@[a]).state
                                is Used ==> mid.entries@[a].state is Used);
                        assert(self.wf());
                        assert(forall|a: int| 0 <= a < i ==> #[trigger] sel[a] == prev_sel[a]);
                    }
                },
                None => {
                    proof {
                        assert(f.ensures((old(self).key_at(i as int),), None::<String>));
                        sel = sel.push(None);
                        assert(sel.drop_last() =~= prev_sel);
                        assert(sel.last() == None::<Seq<char>>);
                        assert(collect_somes(sel) =~= prev);
                        assert(forall|a: int| 0 <= a < i ==> #[trigger] sel[a] == prev_sel[a]);
                    }
                },
            }
            i = i + 1;
        }
        proof {
            assert(old(self).outcomes_of(f, sel));
            assert(out.deep_view() == collect_somes(sel));
            assert(forall|a: int|
                0 <= a < old(self).states().len() ==> old(self).states()[a].spec_le(
                    #[trigger] self.states()[a],
                ));
        }
        out
    }

    /// Names of the override-prefixed variables never looked at, in
    /// capture order — dead configuration worth warning about.
    pub fn unused_override_vars(&self) -> (r: Vec<String>)
        ensures
            r.deep_view() == unused_list(self.keys(), self.states(), self.prefix()),
    {
        let mut out: Vec<String> = Vec::new();
        let n = self.entries.len();
        let mut i: usize = 0;
        proof {
            assert(self.keys().take(0) =~= Seq::<Seq<char>>::empty());
            assert(self.states().take(0) =~= Seq::<EnvironmentValue>::empty());
        }
        while i < n
            invariant
                i <= n,
                n == self.entries@.len(),
                out.deep_view() == unused_list(
                    self.keys().take(i as int),
                    self.states().take(i as int),
                    self.prefix(),
                ),
            decreases n - i,
        {
            proof {
                assert(self.keys().take(i + 1).drop_last() =~= self.keys().take(i as int));
                assert(self.states().take(i + 1).drop_last() =~= self.states().take(i as int));
                assert(self.keys().take(i + 1).last() == self.keys()[i as int]);
                assert(self.states().take(i + 1).last() == self.states()[i as int]);
            }
            let e = &self.entries[i];
            if has_prefix(e.key.as_str(), self.override_prefix.as_str()) && e.state.is_unused() {
                let ghost prev = out.deep_view();
                out.push(e.key.clone());
                proof {
                    assert(out.deep_view() =~= prev.push(e.key@));
                }
            }
            i = i + 1;
        }
        proof {
            assert(self.keys().take(n as int) =~= self.keys());
            assert(self.states().take(n as int) =~= self.states());
        }
        out
    }

    /// Names of the override variables that were honored, with the
    /// package-specific prefix stripped, in capture order.
    pub fn used_override_vars(&self) -> (r: Vec<String>)
        requires
            self.wf(),
        ensures
            r.deep_view() == used_list(self.keys(), self.states(), self.prefix()),
    {
        let mut out: Vec<String> = Vec::new();
        let n = self.entries.len();
        let plen = self.override_prefix.unicode_len();
        let mut i: usize = 0;
        proof {
            assert(self.keys().take(0) =~= Seq::<Seq<char>>::empty());
            assert(self.states().take(0) =~= Seq::<EnvironmentValue>::empty());
        }
        while i < n
            invariant
                i <= n,
                n == self.entries@.len(),
                self.wf(),
                plen == self.prefix().len(),
                out.deep_view() == used_list(
                    self.keys().take(i as int),
                    self.states().take(i as int),
                    self.prefix(),
                ),
            decreases n - i,
        {
            proof {
                assert(self.keys().take(i + 1).drop_last() =~= self.keys().take(i as int));
                assert(self.states().take(i + 1).drop_last() =~= self.states().take(i as int));
                assert(self.keys().take(i + 1).last() == self.keys()[i as int]);
                assert(self.states().take(i + 1).last() == self.states()[i as int]);
            }
            let e = &self.entries[i];
            if e.state.is_used() {
                let klen = e.key.as_str().unicode_len();
                let stripped = e.key.as_str().substring_char(plen, klen);
                let ghost prev = out.deep_view();
                out.push(stripped.to_owned());
                proof {
                    assert(stripped@ =~= e.key@.skip(plen as int));
                    assert(out.deep_view() =~= prev.push(e.key@.skip(plen as int)));
                }
            }
            i = i + 1;
        }
        proof {
            assert(self.keys().take(n as int) =~= self.keys());
            assert(self.states().take(n as int) =~= self.states());
        }
        out
    }

    /// Tests for the presence of a key; tracking-wise this is a lookup.
    pub fn contains_key(&mut self, key: &str) -> (r: bool)
        requires
            old(self).wf(),
        ensures
            final(self).wf(),
            final(self).keys() == old(self).keys(),
            final(self).vals() == old(self).vals(),
            final(self).prefix() == old(self).prefix(),
            r == old(self).map_has(key@),
            r ==> final(self).states() == old(self).states().update(
                key_idx(old(self).keys(), key@),
                old(self).map_state(key@).spec_queried(),
            ),
            !r ==> final(self).states() == old(self).states(),
            forall|i: int|
                0 <= i < old(self).states().len() ==> old(self).states()[i].spec_le(
                    #[trigger] final(self).states()[i],
                ),
    {
        self.get(key).is_some()
    }
}

/// A fatal acquisition failure, naming the offending variable.
#[derive(Debug, PartialEq, Eq)]
pub enum EnvError {
    /// An override variable was present but did not parse.
    BadOverride(OverrideParseError),
    /// A required variable was absent with no override standing in.
    Missing { key: String },
    /// A required variable was present but malformed.
    Malformed { key: String, value: String },
}

impl EnvironmentMap {
    /// The value of a required string field: an override for `field`
    /// wins, otherwise the variable `env_key` must be present.
    pub fn resolve_str(&mut self, field: &str, env_key: &str) -> (r: Result<String, EnvError>)
        requires
            old(self).wf(),
        ensures
            final(self).wf(),
            final(self).keys() == old(self).keys(),
            final(self).vals() == old(self).vals(),
            final(self).prefix() == old(self).prefix(),
            forall|i: int|
                0 <= i < old(self).states().len() ==> old(self).states()[i].spec_le(
                    #[trigger] final(self).states()[i],
                ),
            match r {
                Ok(v) => {
                    let okey = old(self).prefix() + field@;
                    if old(self).map_has(okey) {
                        v@ == old(self).map_val(okey)
                    } else {
                        old(self).map_has(env_key@) && v@ == old(self).map_val(env_key@)
                    }
                },
                Err(e) => {
                    &&& e matches EnvError::Missing { key } && key@ == env_key@
                    &&& !old(self).map_has(old(self).prefix() + field@)
                    &&& !old(self).map_has(env_key@)
                },
            },
    {
        match self.get_override_var::<String>(field) {
            Ok(Some(v)) => Ok(v),
            Ok(None) => match self.get(env_key) {
                Some(v) => Ok(v),
                None => Err(EnvError::Missing { key: env_key.to_owned() }),
            },
            Err(e) => {
                proof {
                    assert(false);
                }
                Err(EnvError::BadOverride(e))
            },
        }
    }

    /// The value of an optional string field: an override wins, an absent
    /// variable falls back to the empty string.
    pub fn resolve_str_or_empty(&mut self, field: &str, env_key: &str) -> (r: String)
        requires
            old(self).wf(),
        ensures
            final(self).wf(),
            final(self).keys() == old(self).keys(),
            final(self).vals() == old(self).vals(),
            final(self).prefix() == old(self).prefix(),
            forall|i: int|
                0 <= i < old(self).states().len() ==> old(self).states()[i].spec_le(
                    #[trigger] final(self).states()[i],
                ),
            ({
                let okey = old(self).prefix() + field@;
                if old(self).map_has(okey) {
                    r@ == old(self).map_val(okey)
                } else if old(self).map_has(env_key@) {
                    r@ == old(self).map_val(env_key@)
                } else {
                    r@ == Seq::<char>::empty()
                }
            }),
    {
        match self.get_override_var::<String>(field) {
            Ok(Some(v)) => v,
            Ok(None) => match self.get(env_key) {
                Some(v) => v,
                None => String::new(),
            },
            Err(_) => {
                proof {
                    assert(false);
                }
                String::new()
            },
        }
    }

    /// Whether this is a debug profile: an override for `DEBUG` must be a
    /// boolean, otherwise the `DEBUG` variable is compared against `true`.
    pub fn resolve_debug(&mut self) -> (r: Result<bool, EnvError>)
        requires
            old(self).wf(),
        ensures
            final(self).wf(),
            final(self).keys() == old(self).keys(),
            final(self).vals() == old(self).vals(),
            final(self).prefix() == old(self).prefix(),
            forall|i: int|
                0 <= i < old(self).states().len() ==> old(self).states()[i].spec_le(
                    #[trigger] final(self).states()[i],
                ),
            ({
                let okey = old(self).prefix() + "DEBUG"@;
                match r {
                    Ok(b) => {
                        if old(self).map_has(okey) {
                            <bool as ParseFromEnv>::parse_spec(old(self).map_val(okey)) == Some(b)
                        } else {
                            old(self).map_has("DEBUG"@) && b == (old(self).map_val("DEBUG"@)
                                == "true"@)
                        }
                    },
                    Err(EnvError::BadOverride(e)) => {
                        &&& old(self).map_has(okey)
                        &&& <bool as ParseFromEnv>::parse_spec(old(self).map_val(okey)) is None
                        &&& e.key@ == "DEBUG"@
                        &&& e.value@ == old(self).map_val(okey)
                    },
                    Err(EnvError::Missing { key }) => {
                        &&& key@ == "DEBUG"@
                        &&& !old(self).map_has(okey)
                        &&& !old(self).map_has("DEBUG"@)
                    },
                    Err(EnvError::Malformed { .. }) => false,
                }
            }),
    {
        match self.get_override_var::<bool>("DEBUG") {
            Ok(Some(b)) => Ok(b),
            Ok(None) => match self.get("DEBUG") {
                Some(v) => Ok(str_eq(v.as_str(), "true")),
                None => Err(EnvError::Missing { key: "DEBUG".to_owned() }),
            },
            Err(e) => Err(EnvError::BadOverride(e)),
        }
    }

    /// The build parallelism: an override for `NUM_JOBS` wins; a build
    /// that pins `SOURCE_DATE_EPOCH` is treated as single-job for
    /// reproducibility; otherwise `NUM_JOBS` must hold a number.
    pub fn resolve_num_jobs(&mut self) -> (r: Result<u32, EnvError>)
        requires
            old(self).wf(),
        ensures
            final(self).wf(),
            final(self).keys() == old(self).keys(),
            final(self).vals() == old(self).vals(),
            final(self).prefix() == old(self).prefix(),
            forall|i: int|
                0 <= i < old(self).states().len() ==> old(self).states()[i].spec_le(
                    #[trigger] final(self).states()[i],
                ),
            ({
                let okey = old(self).prefix() + "NUM_JOBS"@;
                match r {
                    Ok(n) => {
                        if old(self).map_has(okey) {
                            <u32 as ParseFromEnv>::parse_spec(old(self).map_val(okey)) == Some(n)
                        } else if old(self).map_has("SOURCE_DATE_EPOCH"@) {
                            n == 1u32
                        } else {
                            old(self).map_has("NUM_JOBS"@) && <u32 as ParseFromEnv>::parse_spec(
                                old(self).map_val("NUM_JOBS"@),
                            ) == Some(n)
                        }
                    },
                    Err(EnvError::BadOverride(e)) => {
                        &&& old(self).map_has(okey)
                        &&& <u32 as ParseFromEnv>::parse_spec(old(self).map_val(okey)) is None
                        &&& e.key@ == "NUM_JOBS"@
                        &&& e.value@ == old(self).map_val(okey)
                    },
                    Err(EnvError::Missing { key }) => {
                        &&& key@ == "NUM_JOBS"@
                        &&& !old(self).map_has(okey)
                        &&& !old(self).map_has("SOURCE_DATE_EPOCH"@)
                        &&& !old(self).map_has("NUM_JOBS"@)
                    },
                    Err(EnvError::Malformed { key, value }) => {
                        &&& key@ == "NUM_JOBS"@
                        &&& !old(self).map_has(okey)
                        &&& !old(self).map_has("SOURCE_DATE_EPOCH"@)
                        &&& old(self).map_has("NUM_JOBS"@)
                        &&& value@ == old(self).map_val("NUM_JOBS"@)
                        &&& <u32 as ParseFromEnv>::parse_spec(value@) is None
                    },
                }
            }),
    {
        match self.get_override_var::<u32>("NUM_JOBS") {
            Ok(Some(n)) => Ok(n),
            Ok(None) => {
                if self.contains_key(crate::SOURCE_DATE_EPOCH) {
                    Ok(1)
                } else {
                    match self.get("NUM_JOBS") {
                        Some(v) => match u32::parse_from_env(v.as_str()) {
                            Ok(n) => Ok(n),
                            Err(_) => Err(
                                EnvError::Malformed { key: "NUM_JOBS".to_owned(), value: v },
                            ),
                        },
                        None => Err(EnvError::Missing { key: "NUM_JOBS".to_owned() }),
                    }
                }
            },
            Err(e) => Err(EnvError::BadOverride(e)),
        }
    }
}

/// Continuous-integration platforms whose presence can be detected from
/// the environment.
#[derive(Clone, Copy, Debug, PartialEq, Eq, Structural)]
pub enum CIPlatform {
    Travis,
    Circle,
    GitLab,
    AppVeyor,
    Codeship,
    Drone,
    Magnum,
    Semaphore,
    Jenkins,
    Bamboo,
    TFS,
    TeamCity,
    Buildkite,
    Hudson,
    TaskCluster,
    GoCD,
    BitBucket,
    GitHubActions,
    /// Some CI was detected, but only by a generic marker variable.
    Generic,
}

impl CIPlatform {
    /// The human-readable name of the platform.
    pub open spec fn spec_display_name(self) -> Seq<char> {
        match self {
            CIPlatform::Travis => "Travis CI"@,
            CIPlatform::Circle => "CircleCI"@,
            CIPlatform::GitLab => "GitLab"@,
            CIPlatform::AppVeyor => "AppVeyor"@,
            CIPlatform::Codeship => "CodeShip"@,
            CIPlatform::Drone => "Drone"@,
            CIPlatform::Magnum => "Magnum"@,
            CIPlatform::Semaphore => "Semaphore"@,
            CIPlatform::Jenkins => "Jenkins"@,
            CIPlatform::Bamboo => "Bamboo"@,
            CIPlatform::TFS => "Team Foundation Server"@,
            CIPlatform::TeamCity => "TeamCity"@,
            CIPlatform::Buildkite => "Buildkite"@,
            CIPlatform::Hudson => "Hudson"@,
            CIPlatform::TaskCluster => "TaskCluster"@,
            CIPlatform::GoCD => "GoCD"@,
            CIPlatform::BitBucket => "BitBucket"@,
            CIPlatform::GitHubActions => "GitHub Actions"@,
            CIPlatform::Generic => "Generic CI"@,
        }
    }

    /// Renders the platform name.
    pub fn display_name(&self) -> (r: &'static str)
        ensures
            r@ == self.spec_display_name(),
    {
        match *self {
            CIPlatform::Travis => "Travis CI",
            CIPlatform::Circle => "CircleCI",
            CIPlatform::GitLab => "GitLab",
            CIPlatform::AppVeyor => "AppVeyor",
            CIPlatform::Codeship => "CodeShip",
            CIPlatform::Drone => "Drone",
            CIPlatform::Magnum => "Magnum",
            CIPlatform::Semaphore => "Semaphore",
            CIPlatform::Jenkins => "Jenkins",
            CIPlatform::Bamboo => "Bamboo",
            CIPlatform::TFS => "Team Foundation Server",
            CIPlatform::TeamCity => "TeamCity",
            CIPlatform::Buildkite => "Buildkite",
            CIPlatform::Hudson => "Hudson",
            CIPlatform::TaskCluster => "TaskCluster",
            CIPlatform::GoCD => "GoCD",
            CIPlatform::BitBucket => "BitBucket",
            CIPlatform::GitHubActions => "GitHub Actions",
            CIPlatform::Generic => "Generic CI",
        }
    }
}

/// The detection verdict for an environment, in fixed precedence order:
/// first the exact-value table (a `CI_NAME` that names its platform),
/// then the presence table of platform-specific markers, then the
/// conjunctive task/run check, and only then the generic markers.  A
/// specific answer therefore always wins over the generic bucket;
/// `lemma_specific_beats_generic` states that law.
pub open spec fn spec_detect(m: EnvironmentMap) -> Option<CIPlatform> {
    if m.map_has("CI_NAME"@) && m.map_val("CI_NAME"@) == "codeship"@ {
        Some(CIPlatform::Codeship)
    } else if m.map_has("TRAVIS"@) {
        Some(CIPlatform::Travis)
    } else if m.map_has("CIRCLECI"@) {
        Some(CIPlatform::Circle)
    } else if m.map_has("GITLAB_CI"@) {
        Some(CIPlatform::GitLab)
    } else if m.map_has("APPVEYOR"@) {
        Some(CIPlatform::AppVeyor)
    } else if m.map_has("DRONE"@) {
        Some(CIPlatform::Drone)
    } else if m.map_has("MAGNUM"@) {
        Some(CIPlatform::Magnum)
    } else if m.map_has("SEMAPHORE"@) {
        Some(CIPlatform::Semaphore)
    } else if m.map_has("JENKINS_URL"@) {
        Some(CIPlatform::Jenkins)
    } else if m.map_has("bamboo_planKey"@) {
        Some(CIPlatform::Bamboo)
    } else if m.map_has("TF_BUILD"@) {
        Some(CIPlatform::TFS)
    } else if m.map_has("TEAMCITY_VERSION"@) {
        Some(CIPlatform::TeamCity)
    } else if m.map_has("BUILDKITE"@) {
        Some(CIPlatform::Buildkite)
    } else if m.map_has("HUDSON_URL"@) {
        Some(CIPlatform::Hudson)
    } else if m.map_has("GO_PIPELINE_LABEL"@) {
        Some(CIPlatform::GoCD)
    } else if m.map_has("BITBUCKET_COMMIT"@) {
        Some(CIPlatform::BitBucket)
    } else if m.map_has("GITHUB_ACTIONS"@) {
        Some(CIPlatform::GitHubActions)
    } else if m.map_has("TASK_ID"@) && m.map_has("RUN_ID"@) {
        Some(CIPlatform::TaskCluster)
    } else if m.map_has("CI"@) || m.map_has("CONTINUOUS_INTEGRATION"@) || m.map_has(
        "BUILD_NUMBER"@,
    ) {
        Some(CIPlatform::Generic)
    } else {
        None
    }
}

/// Whenever a platform's uniquely-identifying variable is set, detection
/// reports a specific platform — never the generic marker and never
/// nothing — even if a generic variable is also set.
pub proof fn lemma_specific_beats_generic(m: EnvironmentMap)
    requires
        ({
            ||| m.map_has("TRAVIS"@)
            ||| m.map_has("CIRCLECI"@)
            ||| m.map_has("GITLAB_CI"@)
            ||| m.map_has("APPVEYOR"@)
            ||| m.map_has("DRONE"@)
            ||| m.map_has("MAGNUM"@)
            ||| m.map_has("SEMAPHORE"@)
            ||| m.map_has("JENKINS_URL"@)
            ||| m.map_has("bamboo_planKey"@)
            ||| m.map_has("TF_BUILD"@)
            ||| m.map_has("TEAMCITY_VERSION"@)
            ||| m.map_has("BUILDKITE"@)
            ||| m.map_has("HUDSON_URL"@)
            ||| m.map_has("GO_PIPELINE_LABEL"@)
            ||| m.map_has("BITBUCKET_COMMIT"@)
            ||| m.map_has("GITHUB_ACTIONS"@)
        }),
    ensures
        spec_detect(m) is Some,
        spec_detect(m) != Some(CIPlatform::Generic),
{
}

impl EnvironmentMap {
    /// Classifies the execution context as one of the known CI platforms,
    /// a pure function of the captured variables.  The variables looked
    /// at are recorded as queried; keys and values are untouched.
    pub fn detect_ci(&mut self) -> (r: Option<CIPlatform>)
        requires
            old(self).wf(),
        ensures
            final(self).wf(),
            final(self).keys() == old(self).keys(),
            final(self).vals() == old(self).vals(),
            final(self).prefix() == old(self).prefix(),
            r == spec_detect(*old(self)),
            forall|i: int|
                0 <= i < old(self).states().len() ==> old(self).states()[i].spec_le(
                    #[trigger] final(self).states()[i],
                ),
    {
        let codeship = match self.get("CI_NAME") {
            Some(v) => str_eq(v.as_str(), "codeship"),
            None => false,
        };
        if codeship {
            return Some(CIPlatform::Codeship);
        }
        if self.contains_key("TRAVIS") {
            return Some(CIPlatform::Travis);
        }
        if self.contains_key("CIRCLECI") {
            return Some(CIPlatform::Circle);
        }
        if self.contains_key("GITLAB_CI") {
            return Some(CIPlatform::GitLab);
        }
        if self.contains_key("APPVEYOR") {
            return Some(CIPlatform::AppVeyor);
        }
        if self.contains_key("DRONE") {
            return Some(CIPlatform::Drone);
        }
        if self.contains_key("MAGNUM") {
            return Some(CIPlatform::Magnum);
        }
        if self.contains_key("SEMAPHORE") {
            return Some(CIPlatform::Semaphore);
        }
        if self.contains_key("JENKINS_URL") {
            return Some(CIPlatform::Jenkins);
        }
        if self.contains_key("bamboo_planKey") {
            return Some(CIPlatform::Bamboo);
        }
        if self.contains_key("TF_BUILD") {
            return Some(CIPlatform::TFS);
        }
        if self.contains_key("TEAMCITY_VERSION") {
            return Some(CIPlatform::TeamCity);
        }
        if self.contains_key("BUILDKITE") {
            return Some(CIPlatform::Buildkite);
        }
        if self.contains_key("HUDSON_URL") {
            return Some(CIPlatform::Hudson);
        }
        if self.contains_key("GO_PIPELINE_LABEL") {
            return Some(CIPlatform::GoCD);
        }
        if self.contains_key("BITBUCKET_COMMIT") {
            return Some(CIPlatform::BitBucket);
        }
        if self.contains_key("GITHUB_ACTIONS") {
            return Some(CIPlatform::GitHubActions);
        }
        if self.contains_key("TASK_ID") && self.contains_key("RUN_ID") {
            return Some(CIPlatform::TaskCluster);
        }
        if self.contains_key("CI") || self.contains_key("CONTINUOUS_INTEGRATION")
            || self.contains_key("BUILD_NUMBER") {
            return Some(CIPlatform::Generic);
        }
        None
    }
}

/// The keys carrying prefix `p`, with the prefix stripped, in order.
pub open spec fn prefixed_stripped(keys: Seq<Seq<char>>, p: Seq<char>) -> Seq<Seq<char>>
    decreases keys.len(),
{
    if keys.len() == 0 {
        Seq::empty()
    } else {
        let init = prefixed_stripped(keys.drop_last(), p);
        if p.is_prefix_of(keys.last()) {
            init.push(keys.last().skip(p.len() as int))
        } else {
            init
        }
    }
}

/// Where the compiler's version string comes from: an operator override,
/// or a probe of the tool that the unverified driver must run.
#[derive(Debug, PartialEq, Eq)]
pub enum VersionSource {
    Overridden(String),
    Probe,
}

/// A resolved toolchain executable together with its version source.
#[derive(Debug, PartialEq, Eq)]
pub struct ToolPlan {
    pub tool: String,
    pub version: VersionSource,
}

impl EnvironmentMap {
    /// The detected CI platform name: an override for `CI_PLATFORM`
    /// (which may explicitly say "none") pre-empts detection.
    pub fn resolve_ci(&mut self) -> (r: Result<Option<String>, EnvError>)
        requires
            old(self).wf(),
        ensures
            final(self).wf(),
            final(self).keys() == old(self).keys(),
            final(self).vals() == old(self).vals(),
            final(self).prefix() == old(self).prefix(),
            forall|i: int|
                0 <= i < old(self).states().len() ==> old(self).states()[i].spec_le(
                    #[trigger] final(self).states()[i],
                ),
            ({
                let okey = old(self).prefix() + "CI_PLATFORM"@;
                match r {
                    Ok(o) => {
                        if old(self).map_has(okey) {
                            <Option<String> as ParseFromEnv>::parse_spec(old(self).map_val(okey))
                                == Some(match o {
                                Some(ref v) => Some(v@),
                                None => None,
                            })
                        } else {
                            match spec_detect(*old(self)) {
                                Some(p) => o matches Some(v) && v@ == p.spec_display_name(),
                                None => o is None,
                            }
                        }
                    },
                    Err(_) => false,
                }
            }),
    {
        match self.get_override_var::<Option<String>>("CI_PLATFORM") {
            Ok(Some(o)) => Ok(o),
            Ok(None) => match self.detect_ci() {
                Some(p) => Ok(Some(p.display_name().to_owned())),
                None => Ok(None),
            },
            Err(e) => {
                proof {
                    assert(false);
                }
                Err(EnvError::BadOverride(e))
            },
        }
    }

    /// Collects the keys starting with `prefix`, stripped of it, in
    /// capture order, marking each matching variable as queried.
    pub fn strip_prefixed_keys(&mut self, prefix: &str) -> (r: Vec<String>)
        requires
            old(self).wf(),
        ensures
            final(self).wf(),
            final(self).keys() == old(self).keys(),
            final(self).vals() == old(self).vals(),
            final(self).prefix() == old(self).prefix(),
            r.deep_view() == prefixed_stripped(old(self).keys(), prefix@),
            final(self).states().len() == old(self).states().len(),
            forall|j: int|
                0 <= j < old(self).states().len() ==> #[trigger] final(self).states()[j] == (
                if prefix@.is_prefix_of(old(self).keys()[j]) {
                    old(self).states()[j].spec_queried()
                } else {
                    old(self).states()[j]
                }),
            forall|i: int|
                0 <= i < old(self).states().len() ==> old(self).states()[i].spec_le(
                    #[trigger] final(self).states()[i],
                ),
    {
        let mut out: Vec<String> = Vec::new();
        let n = self.entries.len();
        let plen = prefix.unicode_len();
        let mut i: usize = 0;
        proof {
            assert(self.keys().take(0) =~= Seq::<Seq<char>>::empty());
        }
        while i < n
            invariant
                i <= n,
                n == self.entries@.len(),
                old(self).wf(),
                plen == prefix@.len(),
                self.keys() == old(self).keys(),
                self.vals() == old(self).vals(),
                self.prefix() == old(self).prefix(),
                self.wf(),
                self.states().len() == old(self).states().len(),
                out.deep_view() == prefixed_stripped(old(self).keys().take(i as int), prefix@),
                forall|j: int|
                    0 <= j < i ==> #[trigger] self.states()[j] == (
                    if prefix@.is_prefix_of(old(self).keys()[j]) {
                        old(self).states()[j].spec_queried()
                    } else {
                        old(self).states()[j]
                    }),
                forall|j: int| i <= j < n ==> #[trigger] self.states()[j] == old(self).states()[j],
            decreases n - i,
        {
            proof {
                assert(old(self).keys().take(i + 1).drop_last() =~= old(self).keys().take(i as int));
                assert(old(self).keys().take(i + 1).last() == old(self).keys()[i as int]);
            }
            let matched = has_prefix(self.entries[i].key.as_str(), prefix);
            if matched {
                let e = &self.entries[i];
                let klen = e.key.as_str().unicode_len();
                let stripped = e.key.as_str().substring_char(plen, klen);
                let ghost prev = out.deep_view();
                out.push(stripped.to_owned());
                let k2 = e.key.clone();
                let v2 = e.value.clone();
                let mut st = e.state;
                st.upgrade_to_queried();
                let ghost mid = *self;
                self.entries[i] = EnvEntry { key: k2, value: v2, state: st };
                proof {
                    assert(out.deep_view() =~= prev.push(
                        old(self).keys()[i as int].skip(plen as int),
                    ));
                    assert(self.keys() =~= mid.keys());
                    assert(self.vals() =~= mid.vals());
                    assert(self.states() =~= mid.states().update(
                        i as int,
                        mid.states()[i as int].spec_queried(),
                    ));
                    assert(forall|j: int|
                        0 <= j < self.entries@.len() ==> (#[trigger] self.entries@[j]).key@
                            == mid.entries@[j].key@);
                    assert(forall|j: int|
                        0 <= j < self.entries@.len() && (#[trigger] self.entries@[j]).state is Used
                            ==> mid.entries@[j].state is Used);
                    assert(self.wf());
                }
            }
            i = i + 1;
        }
        proof {
            assert(old(self).keys().take(n as int) =~= old(self).keys());
        }
        out
    }

    /// The enabled features, sorted: an override for `FEATURES` is a
    /// comma-separated list; otherwise every `CARGO_FEATURE_*` variable
    /// contributes its stripped name.
    pub fn resolve_features(&mut self) -> (r: Vec<String>)
        requires
            old(self).wf(),
        ensures
            final(self).wf(),
            final(self).keys() == old(self).keys(),
            final(self).vals() == old(self).vals(),
            final(self).prefix() == old(self).prefix(),
            forall|i: int|
                0 <= i < old(self).states().len() ==> old(self).states()[i].spec_le(
                    #[trigger] final(self).states()[i],
                ),
            crate::util::strs_sorted(r.deep_view()),
            ({
                let okey = old(self).prefix() + "FEATURES"@;
                if old(self).map_has(okey) {
                    <Vec<String> as ParseFromEnv>::parse_spec(old(self).map_val(okey))
                        matches Some(base) && r.deep_view().to_multiset() == base.to_multiset()
                } else {
                    r.deep_view().to_multiset() == prefixed_stripped(
                        old(self).keys(),
                        "CARGO_FEATURE_"@,
                    ).to_multiset()
                }
            }),
    {
        let base = match self.get_override_var::<Vec<String>>("FEATURES") {
            Ok(Some(v)) => v,
            Ok(None) => self.strip_prefixed_keys("CARGO_FEATURE_"),
            Err(_) => {
                proof {
                    crate::util::lemma_string_segments_total(
                        crate::util::split_commas(
                            old(self).map_val(old(self).prefix() + "FEATURES"@),
                        ),
                    );
                    assert(false);
                }
                Vec::new()
            },
        };
        crate::util::sort_strings(base)
    }

    /// The compiler to report: an overridden `RUSTC` demands an
    /// accompanying `RUSTC_VERSION` override; otherwise the `RUSTC`
    /// variable names the tool and its version must be probed.
    pub fn resolve_rustc(&mut self) -> (r: Result<ToolPlan, EnvError>)
        requires
            old(self).wf(),
        ensures
            final(self).wf(),
            final(self).keys() == old(self).keys(),
            final(self).vals() == old(self).vals(),
            final(self).prefix() == old(self).prefix(),
            forall|i: int|
                0 <= i < old(self).states().len() ==> old(self).states()[i].spec_le(
                    #[trigger] final(self).states()[i],
                ),
            ({
                let okey = old(self).prefix() + "RUSTC"@;
                let vkey = old(self).prefix() + "RUSTC_VERSION"@;
                match r {
                    Ok(p) => {
                        if old(self).map_has(okey) {
                            &&& p.tool@ == old(self).map_val(okey)
                            &&& old(self).map_has(vkey)
                            &&& p.version matches VersionSource::Overridden(v) && v@ == old(
                                self,
                            ).map_val(vkey)
                        } else {
                            &&& old(self).map_has("RUSTC"@)
                            &&& p.tool@ == old(self).map_val("RUSTC"@)
                            &&& p.version is Probe
                        }
                    },
                    Err(EnvError::Missing { key }) => {
                        if old(self).map_has(okey) {
                            key@ == "RUSTC_VERSION"@ && !old(self).map_has(vkey)
                        } else {
                            key@ == "RUSTC"@ && !old(self).map_has("RUSTC"@)
                        }
                    },
                    Err(_) => false,
                }
            }),
    {
        match self.get_override_var::<String>("RUSTC") {
            Ok(Some(tool)) => match self.get_override_var::<String>("RUSTC_VERSION") {
                Ok(Some(v)) => Ok(ToolPlan { tool, version: VersionSource::Overridden(v) }),
                Ok(None) => Err(EnvError::Missing { key: "RUSTC_VERSION".to_owned() }),
                Err(_) => {
                    proof {
                        assert(false);
                    }
                    Err(EnvError::Missing { key: "RUSTC_VERSION".to_owned() })
                },
            },
            Ok(None) => match self.get("RUSTC") {
                Some(tool) => Ok(ToolPlan { tool, version: VersionSource::Probe }),
                None => Err(EnvError::Missing { key: "RUSTC".to_owned() }),
            },
            Err(_) => {
                proof {
                    assert(false);
                }
                Err(EnvError::Missing { key: "RUSTC".to_owned() })
            },
        }
    }

    /// The documentation generator to report: with an overridden
    /// `RUSTDOC`, a missing `RUSTDOC_VERSION` override degrades to the
    /// empty string rather than a probe; otherwise the `RUSTDOC` variable
    /// names the tool and the version is probed (and may come back
    /// empty).
    pub fn resolve_rustdoc(&mut self) -> (r: Result<ToolPlan, EnvError>)
        requires
            old(self).wf(),
        ensures
            final(self).wf(),
            final(self).keys() == old(self).keys(),
            final(self).vals() == old(self).vals(),
            final(self).prefix() == old(self).prefix(),
            forall|i: int|
                0 <= i < old(self).states().len() ==> old(self).states()[i].spec_le(
                    #[trigger] final(self).states()[i],
                ),
            ({
                let okey = old(self).prefix() + "RUSTDOC"@;
                let vkey = old(self).prefix() + "RUSTDOC_VERSION"@;
                match r {
                    Ok(p) => {
                        if old(self).map_has(okey) {
                            &&& p.tool@ == old(self).map_val(okey)
                            &&& p.version matches VersionSource::Overridden(v) && v@ == (
                            if old(self).map_has(vkey) {
                                old(self).map_val(vkey)
                            } else {
                                Seq::<char>::empty()
                            })
                        } else {
                            &&& old(self).map_has("RUSTDOC"@)
                            &&& p.tool@ == old(self).map_val("RUSTDOC"@)
                            &&& p.version is Probe
                        }
                    },
                    Err(EnvError::Missing { key }) => {
                        &&& key@ == "RUSTDOC"@
                        &&& !old(self).map_has(okey)
                        &&& !old(self).map_has("RUSTDOC"@)
                    },
                    Err(_) => false,
                }
            }),
    {
        match self.get_override_var::<String>("RUSTDOC") {
            Ok(Some(tool)) => match self.get_override_var::<String>("RUSTDOC_VERSION") {
                Ok(Some(v)) => Ok(ToolPlan { tool, version: VersionSource::Overridden(v) }),
                Ok(None) => Ok(
                    ToolPlan { tool, version: VersionSource::Overridden(String::new()) },
                ),
                Err(_) => {
                    proof {
                        assert(false);
                    }
                    Err(EnvError::Missing { key: "RUSTDOC".to_owned() })
                },
            },
            Ok(None) => match self.get("RUSTDOC") {
                Some(tool) => Ok(ToolPlan { tool, version: VersionSource::Probe }),
                None => Err(EnvError::Missing { key: "RUSTDOC".to_owned() }),
            },
            Err(_) => {
                proof {
                    assert(false);
                }
                Err(EnvError::Missing { key: "RUSTDOC".to_owned() })
            },
        }
    }
}

} // verus!

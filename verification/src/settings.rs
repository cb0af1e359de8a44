//! Runtime settings handed in as key-value pairs, and the startup validation
//! of the values they carry. Reading the settings file from disk happens
//! outside the library; this module owns the store and the value checks.

use vstd::prelude::*;

use crate::text::{
    chars_eq, chars_of, has_prefix, index_of_first, lemma_index_of_first_at,
    lemma_index_of_first_none, lines_of, spec_lines, trim, trim_str,
};

verus! {

/// The value of the first pair with the given key, if any.
pub open spec fn spec_lookup(entries: Seq<(Seq<char>, Seq<char>)>, key: Seq<char>) -> Option<
    Seq<char>,
>
    decreases entries.len(),
{
    if entries.len() == 0 {
        None
    } else if entries[0].0 == key {
        Some(entries[0].1)
    } else {
        spec_lookup(entries.drop_first(), key)
    }
}

/// Replacing the value of the first pair with the given key, or appending a
/// new pair when the key is absent.
pub open spec fn spec_upsert(
    entries: Seq<(Seq<char>, Seq<char>)>,
    key: Seq<char>,
    value: Seq<char>,
) -> Seq<(Seq<char>, Seq<char>)>
    decreases entries.len(),
{
    if entries.len() == 0 {
        seq![(key, value)]
    } else if entries[0].0 == key {
        entries.update(0, (key, value))
    } else {
        seq![entries[0]] + spec_upsert(entries.drop_first(), key, value)
    }
}

proof fn lemma_lookup_at(entries: Seq<(Seq<char>, Seq<char>)>, key: Seq<char>, k: int)
    requires
        0 <= k < entries.len(),
        entries[k].0 == key,
        forall|j: int| 0 <= j < k ==> entries[j].0 != key,
    ensures
        spec_lookup(entries, key) == Some(entries[k].1),
    decreases k,
{
    if k > 0 {
        lemma_lookup_at(entries.drop_first(), key, k - 1);
    }
}

proof fn lemma_lookup_none(entries: Seq<(Seq<char>, Seq<char>)>, key: Seq<char>)
    requires
        forall|j: int| 0 <= j < entries.len() ==> entries[j].0 != key,
    ensures
        spec_lookup(entries, key) is None,
    decreases entries.len(),
{
    if entries.len() > 0 {
        lemma_lookup_none(entries.drop_first(), key);
    }
}

proof fn lemma_upsert_at(
    entries: Seq<(Seq<char>, Seq<char>)>,
    key: Seq<char>,
    value: Seq<char>,
    k: int,
)
    requires
        0 <= k < entries.len(),
        entries[k].0 == key,
        forall|j: int| 0 <= j < k ==> entries[j].0 != key,
    ensures
        spec_upsert(entries, key, value) == entries.update(k, (key, value)),
    decreases k,
{
    if k > 0 {
        lemma_upsert_at(entries.drop_first(), key, value, k - 1);
        assert(spec_upsert(entries, key, value) =~= entries.update(k, (key, value)));
    }
}

proof fn lemma_upsert_absent(entries: Seq<(Seq<char>, Seq<char>)>, key: Seq<char>, value: Seq<char>)
    requires
        forall|j: int| 0 <= j < entries.len() ==> entries[j].0 != key,
    ensures
        spec_upsert(entries, key, value) == entries.push((key, value)),
    decreases entries.len(),
{
    if entries.len() == 0 {
        assert(spec_upsert(entries, key, value) =~= entries.push((key, value)));
    } else {
        lemma_upsert_absent(entries.drop_first(), key, value);
        assert(spec_upsert(entries, key, value) =~= entries.push((key, value)));
    }
}

/// The settings of one run: key-value pairs with first-key-wins lookup.
pub struct Settings {
    entries: Vec<(String, String)>,
}

impl View for Settings {
    type V = Seq<(Seq<char>, Seq<char>)>;

    closed spec fn view(&self) -> Seq<(Seq<char>, Seq<char>)> {
        self.entries.deep_view()
    }
}

impl Settings {
    pub fn new() -> (s: Settings)
        ensures
            s@ == Seq::<(Seq<char>, Seq<char>)>::empty(),
    {
        let s = Settings { entries: Vec::new() };
        proof {
            assert(s@ =~~= Seq::<(Seq<char>, Seq<char>)>::empty());
        }
        s
    }

    /// Store a setting, replacing an earlier value of the same key.
    pub fn insert(&mut self, key: String, value: String)
        ensures
            final(self)@ == spec_upsert(old(self)@, key@, value@),
    {
        let kc = chars_of(key.as_str());
        let n = self.entries.len();
        let mut i: usize = 0;
        while i < n
            invariant
                i <= n,
                n == self.entries@.len(),
                kc@ == key@,
                self.entries.deep_view() == old(self)@,
                forall|j: int| 0 <= j < i ==> (#[trigger] self.entries.deep_view()[j]).0 != key@,
            decreases n - i,
        {
            let ec = chars_of(self.entries[i].0.as_str());
            proof {
                assert(ec@ == self.entries.deep_view()[i as int].0);
            }
            if chars_eq(&ec, &kc) {
                let ghost dv0 = self.entries.deep_view();
                let ghost kv = key@;
                let ghost vv = value@;
                proof {
                    lemma_upsert_at(dv0, kv, vv, i as int);
                }
                self.entries[i] = (key, value);
                proof {
                    assert(self.entries@[i as int].deep_view() == (kv, vv));
                    assert(self.entries.deep_view() =~~= dv0.update(i as int, (kv, vv)));
                    assert(self.entries.deep_view() =~~= spec_upsert(old(self)@, kv, vv));
                }
                return ;
            }
            i += 1;
        }
        let ghost dv0 = self.entries.deep_view();
        let ghost kv = key@;
        let ghost vv = value@;
        proof {
            lemma_upsert_absent(dv0, kv, vv);
        }
        self.entries.push((key, value));
        proof {
            assert(self.entries@.last().deep_view() == (kv, vv));
            assert(self.entries.deep_view() =~~= dv0.push((kv, vv)));
            assert(self.entries.deep_view() =~~= spec_upsert(old(self)@, kv, vv));
        }
    }

    /// The stored value of a key, if any.
    pub fn get_setting(&self, key: &str) -> (r: Option<String>)
        ensures
            match r {
                Some(v) => spec_lookup(self@, key@) == Some(v@),
                None => spec_lookup(self@, key@) is None,
            },
    {
        let kc = chars_of(key);
        let n = self.entries.len();
        let mut i: usize = 0;
        while i < n
            invariant
                i <= n,
                n == self.entries@.len(),
                kc@ == key@,
                forall|j: int| 0 <= j < i ==> (#[trigger] self.entries.deep_view()[j]).0 != key@,
            decreases n - i,
        {
            let ec = chars_of(self.entries[i].0.as_str());
            proof {
                assert(ec@ == self.entries.deep_view()[i as int].0);
            }
            if chars_eq(&ec, &kc) {
                proof {
                    lemma_lookup_at(self@, key@, i as int);
                }
                return Some(self.entries[i].1.clone());
            }
            i += 1;
        }
        proof {
            lemma_lookup_none(self@, key@);
        }
        None
    }

    /// Every stored pair, in storage order.
    pub fn get_all_settings(&self) -> (r: Vec<(String, String)>)
        ensures
            r.deep_view() == self@,
    {
        let n = self.entries.len();
        let mut r: Vec<(String, String)> = Vec::new();
        let mut i: usize = 0;
        while i < n
            invariant
                i <= n,
                n == self.entries@.len(),
                r.deep_view() == self.entries.deep_view().subrange(0, i as int),
            decreases n - i,
        {
            let ghost rv0 = r.deep_view();
            r.push((self.entries[i].0.clone(), self.entries[i].1.clone()));
            proof {
                assert(r@.last().deep_view() == self.entries.deep_view()[i as int]);
                assert(r.deep_view() =~~= rv0.push(self.entries.deep_view()[i as int]));
                assert(r.deep_view() =~~= self.entries.deep_view().subrange(0, i + 1));
            }
            i += 1;
        }
        proof {
            assert(self.entries.deep_view().subrange(0, n as int) =~~= self.entries.deep_view());
        }
        r
    }
}

/// The key-value pair one settings line carries, if any: blank lines and
/// comment lines carry none; otherwise the text before the first `=` is the
/// key and the rest the value, both trimmed. A line without `=` is skipped.
pub open spec fn spec_line_pair(line: Seq<char>) -> Option<(Seq<char>, Seq<char>)> {
    let t = trim(line);
    if t.len() == 0 || t[0] == '#' {
        None
    } else {
        let i = index_of_first(t, '=');
        if !(0 <= i < t.len()) {
            None
        } else {
            Some((trim(t.subrange(0, i)), trim(t.subrange(i + 1, t.len() as int))))
        }
    }
}

/// The settings that a list of lines defines, later lines replacing earlier
/// values of the same key.
pub open spec fn spec_settings_of(lines: Seq<Seq<char>>) -> Seq<(Seq<char>, Seq<char>)>
    decreases lines.len(),
{
    if lines.len() == 0 {
        Seq::empty()
    } else {
        let prior = spec_settings_of(lines.drop_last());
        match spec_line_pair(lines.last()) {
            None => prior,
            Some(p) => spec_upsert(prior, p.0, p.1),
        }
    }
}

/// Parse the text of a settings file: one `key = value` pair per line,
/// `#` comments and blank lines skipped.
pub fn parse_settings(content: &str) -> (s: Settings)
    ensures
        s@ == spec_settings_of(spec_lines(content@)),
{
    let lines = lines_of(content);
    let mut s = Settings::new();
    let n = lines.len();
    let mut i: usize = 0;
    while i < n
        invariant
            i <= n,
            n == lines@.len(),
            lines.deep_view() == spec_lines(content@),
            s@ == spec_settings_of(spec_lines(content@).subrange(0, i as int)),
        decreases n - i,
    {
        proof {
            assert(spec_lines(content@).subrange(0, i + 1).drop_last() =~= spec_lines(
                content@,
            ).subrange(0, i as int));
            assert(spec_lines(content@).subrange(0, i + 1).last() == lines.deep_view()[i as int]);
        }
        let line = lines[i];
        proof {
            assert(line@ == lines.deep_view()[i as int]);
        }
        let t = trim_str(line);
        let tn = t.unicode_len();
        if tn == 0 || t.get_char(0) == '#' {
        } else {
            let mut j: usize = 0;
            while j < tn && t.get_char(j) != '='
                invariant
                    j <= tn,
                    tn == t@.len(),
                    forall|k: int| 0 <= k < j ==> t@[k] != '=',
                decreases tn - j,
            {
                j += 1;
            }
            if j == tn {
                proof {
                    lemma_index_of_first_none(t@, '=');
                }
            } else {
                proof {
                    lemma_index_of_first_at(t@, '=', j as int);
                }
                let key = trim_str(t.substring_char(0, j));
                let value = trim_str(t.substring_char(j + 1, tn));
                s.insert(key.to_owned(), value.to_owned());
            }
        }
        i += 1;
    }
    proof {
        assert(spec_lines(content@).subrange(0, n as int) =~= spec_lines(content@));
    }
    s
}

/// The outcome of startup validation: whether the configuration can be used,
/// and the collected error and warning messages.
pub struct ConfigValidation {
    pub valid: bool,
    pub errors: Vec<String>,
    pub warnings: Vec<String>,
}

impl ConfigValidation {
    pub fn new() -> (v: ConfigValidation)
        ensures
            v.valid,
            v.errors.deep_view() == Seq::<Seq<char>>::empty(),
            v.warnings.deep_view() == Seq::<Seq<char>>::empty(),
    {
        let v = ConfigValidation { valid: true, errors: Vec::new(), warnings: Vec::new() };
        proof {
            assert(v.errors.deep_view() =~~= Seq::<Seq<char>>::empty());
            assert(v.warnings.deep_view() =~~= Seq::<Seq<char>>::empty());
        }
        v
    }

    /// Record an error: the configuration is no longer valid.
    pub fn add_error(&mut self, message: String)
        ensures
            !final(self).valid,
            final(self).errors.deep_view() == old(self).errors.deep_view().push(message@),
            final(self).warnings == old(self).warnings,
    {
        self.errors.push(message);
        self.valid = false;
        proof {
            assert(self.errors.deep_view() =~~= old(self).errors.deep_view().push(
                self.errors@.last()@,
            ));
        }
    }

    /// Record a warning: validity is unchanged.
    pub fn add_warning(&mut self, message: String)
        ensures
            final(self).valid == old(self).valid,
            final(self).warnings.deep_view() == old(self).warnings.deep_view().push(message@),
            final(self).errors == old(self).errors,
    {
        self.warnings.push(message);
        proof {
            assert(self.warnings.deep_view() =~~= old(self).warnings.deep_view().push(
                self.warnings@.last()@,
            ));
        }
    }
}

pub open spec fn valid_log_level(v: Seq<char>) -> bool {
    v == "debug"@ || v == "info"@ || v == "warn"@ || v == "error"@
}

pub open spec fn valid_debug(v: Seq<char>) -> bool {
    v == "true"@ || v == "false"@
}

/// The `log_level` setting, when present, holds one of the known levels.
pub open spec fn log_level_ok(s: Seq<(Seq<char>, Seq<char>)>) -> bool {
    match spec_lookup(s, "log_level"@) {
        None => true,
        Some(v) => valid_log_level(v),
    }
}

/// The `debug` setting, when present, holds a boolean.
pub open spec fn debug_ok(s: Seq<(Seq<char>, Seq<char>)>) -> bool {
    match spec_lookup(s, "debug"@) {
        None => true,
        Some(v) => valid_debug(v),
    }
}

/// The exact error messages startup validation produces, in order.
pub open spec fn expected_errors(s: Seq<(Seq<char>, Seq<char>)>) -> Seq<Seq<char>> {
    let e1: Seq<Seq<char>> = if !log_level_ok(s) {
        seq!["Invalid log_level: "@ + spec_lookup(s, "log_level"@)->0]
    } else {
        Seq::empty()
    };
    let e2: Seq<Seq<char>> = if !debug_ok(s) {
        seq![
            "Debug has to be either true or false, currently it is "@ + spec_lookup(
                s,
                "debug"@,
            )->0,
        ]
    } else {
        Seq::empty()
    };
    e1 + e2
}

/// Validate the startup settings: the configuration is valid exactly when
/// `log_level` and `debug`, where present, hold allowed values; each bad
/// value is reported with one error message naming it.
pub fn validate_startup_config(settings: &Settings) -> (r: ConfigValidation)
    ensures
        r.valid == (log_level_ok(settings@) && debug_ok(settings@)),
        r.errors.deep_view() == expected_errors(settings@),
        r.warnings.deep_view() == Seq::<Seq<char>>::empty(),
{
    let mut v = ConfigValidation::new();
    match settings.get_setting("log_level") {
        Some(lv) => {
            let lc = chars_of(lv.as_str());
            let ok = chars_eq(&lc, &chars_of("debug")) || chars_eq(&lc, &chars_of("info"))
                || chars_eq(&lc, &chars_of("warn")) || chars_eq(&lc, &chars_of("error"));
            if !ok {
                let msg = String::from_str("Invalid log_level: ").concat(lv.as_str());
                v.add_error(msg);
            }
        },
        None => {},
    }
    match settings.get_setting("debug") {
        Some(dv) => {
            let dc = chars_of(dv.as_str());
            let ok = chars_eq(&dc, &chars_of("true")) || chars_eq(&dc, &chars_of("false"));
            if !ok {
                let msg = String::from_str(
                    "Debug has to be either true or false, currently it is ",
                ).concat(dv.as_str());
                v.add_error(msg);
            }
        },
        None => {},
    }
    proof {
        assert(v.errors.deep_view() =~~= expected_errors(settings@));
    }
    v
}

/// Replacing a leading `~/` with the home directory, when one is known.
pub open spec fn spec_expand_tilde(path: Seq<char>, home: Option<Seq<char>>) -> Seq<char> {
    if has_prefix(path, "~/"@) && home is Some {
        home->0 + "/"@ + path.subrange(2, path.len() as int)
    } else {
        path
    }
}

pub fn expand_tilde(path: &str, home: Option<&str>) -> (r: String)
    ensures
        r@ == spec_expand_tilde(path@, match home {
            Some(h) => Some(h@),
            None => None,
        }),
{
    let p = chars_of(path);
    let tilde = chars_of("~/");
    if crate::text::starts_with_chars(&p, &tilde) {
        match home {
            Some(h) => {
                proof {
                    reveal_strlit("~/");
                }
                let n = path.unicode_len();
                let rest = path.substring_char(2, n);
                let r = String::from_str(h).concat("/").concat(rest);
                proof {
                    assert(r@ =~= h@ + "/"@ + path@.subrange(2, path@.len() as int));
                }
                r
            },
            None => path.to_owned(),
        }
    } else {
        path.to_owned()
    }
}

} // verus!

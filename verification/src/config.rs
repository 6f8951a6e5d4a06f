//! What the host tells about the workers: where the engine lies, which functions
//! to call, how many workers to run, the score weights and the penalty.

use crate::params::{equals_sign, lemma_equals_sign};
use crate::text::{
    all_digits, around, around_two, chars_of, count_number, decimal, decimal_text, digit, find,
    first_at, lemma_replaced, parse_count, part, pieces, replace, replaced, spells, split_lines,
    text_of, trim, trimmed,
};
use vstd::prelude::*;

verus! {

/// The configuration of a worker pool. The weights and the strength of the
/// regression penalty are numbers as they were written.
pub struct Config {
    pub lua_dll: String,
    pub src_dir: String,
    pub runtime_dir: String,
    pub runtime_lua: String,
    pub build_xml: String,
    pub bootstrap_path: String,
    pub score_fn: String,
    pub candidate_fn: String,
    pub workers: usize,
    pub w_dps: String,
    pub w_ehp: String,
    pub penalty_k: String,
}

/// A configuration under way: what was read so far.
#[verifier::ext_equal]
pub struct Draft {
    pub lua_dll: Option<Seq<char>>,
    pub src_dir: Option<Seq<char>>,
    pub runtime_dir: Option<Seq<char>>,
    pub runtime_lua: Option<Seq<char>>,
    pub build_xml: Option<Seq<char>>,
    pub bootstrap_path: Option<Seq<char>>,
    pub score_fn: Option<Seq<char>>,
    pub candidate_fn: Option<Seq<char>>,
    pub workers: Option<usize>,
    pub w_dps: Seq<char>,
    pub w_ehp: Seq<char>,
    pub penalty_k: Seq<char>,
}

/// A letter in lower case, where it is one of the basic alphabet.
pub open spec fn lower(c: char) -> char {
    if 'A' <= c <= 'Z' {
        (c as u32 + 32) as char
    } else {
        c
    }
}

/// Whether a text is a word, whatever the case of its letters.
pub open spec fn reads(s: Seq<char>, word: Seq<char>) -> bool {
    s.map_values(|c: char| lower(c)) == word
}

/// Whether a text is digits, one at least, with one point among them or none.
pub open spec fn mantissa(s: Seq<char>) -> bool {
    ||| all_digits(s)
    ||| exists|i: int|
        {
            &&& 0 <= i < s.len()
            &&& #[trigger] s[i] == '.'
            &&& s.len() > 1
            &&& forall|j: int| 0 <= j < s.len() && j != i ==> digit(#[trigger] s[j])
        }
}

/// A text without a sign before it.
pub open spec fn unsigned_part(s: Seq<char>) -> Seq<char> {
    if s.len() > 0 && (s[0] == '+' || s[0] == '-') {
        s.drop_first()
    } else {
        s
    }
}

/// Whether a text is a decimal number: a mantissa, and behind the letter E an
/// exponent or nothing.
pub open spec fn decimal_number(s: Seq<char>) -> bool {
    ||| mantissa(s)
    ||| exists|i: int|
        0 <= i < s.len() && lower(#[trigger] s[i]) == 'e' && mantissa(s.take(i)) && all_digits(
            unsigned_part(s.skip(i + 1)),
        )
}

/// Whether a text writes a floating-point number: a sign or none, and a decimal
/// number, an infinity or what is not a number.
pub open spec fn real_number(s: Seq<char>) -> bool {
    let t = unsigned_part(s);
    decimal_number(t) || reads(t, "inf"@) || reads(t, "infinity"@) || reads(t, "nan"@)
}

/// The configuration after one setting, or what is wrong with it.
pub open spec fn set_one(d: Draft, key: Seq<char>, val: Seq<char>) -> Result<Draft, Seq<char>> {
    if key == "lua_dll"@ {
        Ok(Draft { lua_dll: Some(val), ..d })
    } else if key == "src_dir"@ {
        Ok(Draft { src_dir: Some(val), ..d })
    } else if key == "runtime_dir"@ {
        Ok(Draft { runtime_dir: Some(val), ..d })
    } else if key == "runtime_lua"@ {
        Ok(Draft { runtime_lua: Some(val), ..d })
    } else if key == "build_xml"@ {
        Ok(Draft { build_xml: Some(val), ..d })
    } else if key == "bootstrap"@ {
        Ok(Draft { bootstrap_path: Some(val), ..d })
    } else if key == "score_fn"@ {
        Ok(Draft { score_fn: Some(val), ..d })
    } else if key == "candidate_fn"@ {
        Ok(Draft { candidate_fn: Some(val), ..d })
    } else if key == "workers"@ {
        match count_number(val) {
            Some(w) => Ok(Draft { workers: Some(w), ..d }),
            None => Err("config: workers='"@ + val + "' is not a number"@),
        }
    } else if key == "w_dps"@ {
        if real_number(val) {
            Ok(Draft { w_dps: val, ..d })
        } else {
            Err("config: w_dps='"@ + val + "' is not a number"@)
        }
    } else if key == "w_ehp"@ {
        if real_number(val) {
            Ok(Draft { w_ehp: val, ..d })
        } else {
            Err("config: w_ehp='"@ + val + "' is not a number"@)
        }
    } else if key == "penalty_k"@ {
        if real_number(val) {
            Ok(Draft { penalty_k: val, ..d })
        } else {
            Err("config: penalty_k='"@ + val + "' is not a number"@)
        }
    } else {
        Err("config: unknown key '"@ + key + "'"@)
    }
}

/// The configuration after line number `n`, or what is wrong with the line. Blank
/// lines and comments say nothing.
pub open spec fn read_line(d: Draft, raw: Seq<char>, n: nat) -> Result<Draft, Seq<char>> {
    let line = trimmed(raw);
    if line.len() == 0 || line[0] == '#' {
        Ok(d)
    } else if !line.contains('=') {
        Err("config line "@ + decimal(n) + ": no '=' in '"@ + line + "'"@)
    } else {
        let at = equals_sign(line);
        set_one(d, trimmed(line.take(at)), trimmed(line.skip(at + 1)))
    }
}

pub open spec fn blank_draft() -> Draft {
    Draft {
        lua_dll: None,
        src_dir: None,
        runtime_dir: None,
        runtime_lua: None,
        build_xml: None,
        bootstrap_path: None,
        score_fn: None,
        candidate_fn: None,
        workers: None,
        w_dps: "1"@,
        w_ehp: "1"@,
        penalty_k: "5"@,
    }
}

/// The configuration after some lines; the first fault counts.
pub open spec fn read_lines(lines: Seq<Seq<char>>) -> Result<Draft, Seq<char>>
    decreases lines.len(),
{
    if lines.len() == 0 {
        Ok(blank_draft())
    } else {
        match read_lines(lines.drop_last()) {
            Ok(d) => read_line(d, lines.last(), lines.len()),
            Err(e) => Err(e),
        }
    }
}

/// The first required key that is missing.
pub open spec fn missing(d: Draft) -> Option<Seq<char>> {
    if d.lua_dll is None {
        Some("lua_dll"@)
    } else if d.src_dir is None {
        Some("src_dir"@)
    } else if d.runtime_dir is None {
        Some("runtime_dir"@)
    } else if d.runtime_lua is None {
        Some("runtime_lua"@)
    } else if d.build_xml is None {
        Some("build_xml"@)
    } else if d.bootstrap_path is None {
        Some("bootstrap"@)
    } else if d.score_fn is None {
        Some("score_fn"@)
    } else {
        None
    }
}

/// A configuration that holds all that is required. No number of workers, or
/// none, stands for as many as there are cores; without a function that lists
/// candidates none are listed.
#[verifier::ext_equal]
pub struct Settings {
    pub lua_dll: Seq<char>,
    pub src_dir: Seq<char>,
    pub runtime_dir: Seq<char>,
    pub runtime_lua: Seq<char>,
    pub build_xml: Seq<char>,
    pub bootstrap_path: Seq<char>,
    pub score_fn: Seq<char>,
    pub candidate_fn: Seq<char>,
    pub workers: usize,
    pub w_dps: Seq<char>,
    pub w_ehp: Seq<char>,
    pub penalty_k: Seq<char>,
}

impl View for Config {
    type V = Settings;

    open spec fn view(&self) -> Settings {
        Settings {
            lua_dll: self.lua_dll@,
            src_dir: self.src_dir@,
            runtime_dir: self.runtime_dir@,
            runtime_lua: self.runtime_lua@,
            build_xml: self.build_xml@,
            bootstrap_path: self.bootstrap_path@,
            score_fn: self.score_fn@,
            candidate_fn: self.candidate_fn@,
            workers: self.workers,
            w_dps: self.w_dps@,
            w_ehp: self.w_ehp@,
            penalty_k: self.penalty_k@,
        }
    }
}

/// What a configuration text says, on a machine with `cores` cores.
pub open spec fn configured(s: Seq<char>, cores: usize) -> Result<Settings, Seq<char>> {
    match read_lines(pieces(s, |c: char| c == '\n')) {
        Err(e) => Err(e),
        Ok(d) => match missing(d) {
            Some(name) => Err("config: missing required key '"@ + name + "'"@),
            None => Ok(
                Settings {
                    lua_dll: d.lua_dll->0,
                    src_dir: d.src_dir->0,
                    runtime_dir: d.runtime_dir->0,
                    runtime_lua: d.runtime_lua->0,
                    build_xml: d.build_xml->0,
                    bootstrap_path: d.bootstrap_path->0,
                    score_fn: d.score_fn->0,
                    candidate_fn: (match d.candidate_fn {
                        Some(f) => f,
                        None => Seq::empty(),
                    }),
                    workers: (match d.workers {
                        Some(w) => if w == 0 {
                            cores
                        } else {
                            w
                        },
                        None => cores,
                    }),
                    w_dps: d.w_dps,
                    w_ehp: d.w_ehp,
                    penalty_k: d.penalty_k,
                },
            ),
        },
    }
}

/// A letter in lower case.
fn to_lower(c: char) -> (l: char)
    ensures
        l == lower(c),
{
    if 'A' <= c && c <= 'Z' {
        ((c as u8) + 32) as char
    } else {
        c
    }
}

/// Whether a text is a word, whatever the case of its letters.
fn is_word(v: &Vec<char>, word: &str) -> (b: bool)
    ensures
        b == reads(v@, word@),
{
    let mut low: Vec<char> = Vec::new();
    let mut i: usize = 0;
    while i < v.len()
        invariant
            i <= v@.len(),
            low@ =~= v@.take(i as int).map_values(|c: char| lower(c)),
        decreases v@.len() - i,
    {
        low.push(to_lower(v[i]));
        i = i + 1;
    }
    assert(v@.take(i as int) =~= v@);
    spells(&low, word)
}

/// Whether a text is made of one digit or more.
fn is_digits(v: &Vec<char>) -> (b: bool)
    ensures
        b == all_digits(v@),
{
    let mut i: usize = 0;
    while i < v.len()
        invariant
            i <= v@.len(),
            forall|j: int| 0 <= j < i ==> digit(#[trigger] v@[j]),
        decreases v@.len() - i,
    {
        if v[i] < '0' || v[i] > '9' {
            assert(!digit(v@[i as int]));
            return false;
        }
        i = i + 1;
    }
    v.len() > 0
}

/// Whether a text is digits, with a point among them or not.
fn is_mantissa(v: &Vec<char>) -> (b: bool)
    ensures
        b == mantissa(v@),
{
    let mut points: usize = 0;
    let ghost mut at: int = -1;
    let mut i: usize = 0;
    while i < v.len()
        invariant
            i <= v@.len(),
            points <= 1,
            points == 0 ==> forall|j: int| 0 <= j < i ==> digit(#[trigger] v@[j]),
            points == 1 ==> 0 <= at < i && v@[at] == '.' && forall|j: int|
                0 <= j < i && j != at ==> digit(#[trigger] v@[j]),
        decreases v@.len() - i,
    {
        if v[i] == '.' {
            if points == 1 {
                proof {
                    assert(!digit(v@[i as int]) && !digit(v@[at]));
                    if mantissa(v@) {
                        let k = choose|k: int|
                            {
                                &&& 0 <= k < v@.len()
                                &&& #[trigger] v@[k] == '.'
                                &&& v@.len() > 1
                                &&& forall|j: int|
                                    0 <= j < v@.len() && j != k ==> digit(#[trigger] v@[j])
                            };
                        assert(k == at || digit(v@[at]));
                        assert(k == i || digit(v@[i as int]));
                    }
                }
                return false;
            }
            points = 1;
            proof {
                at = i as int;
            }
        } else if v[i] < '0' || v[i] > '9' {
            proof {
                assert(!digit(v@[i as int]));
                if mantissa(v@) {
                    let k = choose|k: int|
                        {
                            &&& 0 <= k < v@.len()
                            &&& #[trigger] v@[k] == '.'
                            &&& v@.len() > 1
                            &&& forall|j: int|
                                0 <= j < v@.len() && j != k ==> digit(#[trigger] v@[j])
                        };
                    assert(k == i || digit(v@[i as int]));
                }
            }
            return false;
        }
        i = i + 1;
    }
    proof {
        if points == 1 {
            assert(!digit(v@[at]));
            assert(v@[at] == '.');
            if v@.len() == 1 && mantissa(v@) {
                assert(false);
            }
        }
    }
    if points == 0 {
        v.len() > 0
    } else {
        v.len() > 1
    }
}

/// A text without a sign before it.
fn drop_sign(v: &Vec<char>) -> (t: Vec<char>)
    ensures
        t@ == unsigned_part(v@),
{
    let from: usize = if v.len() > 0 && (v[0] == '+' || v[0] == '-') {
        1
    } else {
        0
    };
    proof {
        assert(v@.subrange(0, v@.len() as int) =~= v@);
        if v@.len() > 0 {
            assert(v@.subrange(1, v@.len() as int) =~= v@.drop_first());
        }
    }
    part(v, from, v.len())
}

/// Whether a text is a decimal number.
fn is_decimal_number(v: &Vec<char>) -> (b: bool)
    ensures
        b == decimal_number(v@),
{
    if is_mantissa(v) {
        return true;
    }
    let mut i: usize = 0;
    while i < v.len()
        invariant
            i <= v@.len(),
            !mantissa(v@),
            forall|j: int|
                0 <= j < i ==> !(lower(#[trigger] v@[j]) == 'e' && mantissa(v@.take(j))
                    && all_digits(unsigned_part(v@.skip(j + 1)))),
        decreases v@.len() - i,
    {
        if to_lower(v[i]) == 'e' {
            let head = part(v, 0, i);
            let tail = drop_sign(&part(v, i + 1, v.len()));
            proof {
                assert(v@.subrange(0, i as int) =~= v@.take(i as int));
                assert(v@.subrange(i + 1, v@.len() as int) =~= v@.skip(i + 1));
            }
            if is_mantissa(&head) && is_digits(&tail) {
                assert(lower(v@[i as int]) == 'e');
                return true;
            }
        }
        i = i + 1;
    }
    false
}

/// Whether a text writes a floating-point number.
pub fn is_real_number(v: &Vec<char>) -> (b: bool)
    ensures
        b == real_number(v@),
{
    let t = drop_sign(v);
    is_decimal_number(&t) || is_word(&t, "inf") || is_word(&t, "infinity") || is_word(&t, "nan")
}

/// What was read so far.
struct Reading {
    lua_dll: Option<Vec<char>>,
    src_dir: Option<Vec<char>>,
    runtime_dir: Option<Vec<char>>,
    runtime_lua: Option<Vec<char>>,
    build_xml: Option<Vec<char>>,
    bootstrap_path: Option<Vec<char>>,
    score_fn: Option<Vec<char>>,
    candidate_fn: Option<Vec<char>>,
    workers: Option<usize>,
    w_dps: Vec<char>,
    w_ehp: Vec<char>,
    penalty_k: Vec<char>,
}

/// A text that may be missing.
spec fn maybe(v: Option<Vec<char>>) -> Option<Seq<char>> {
    match v {
        Some(v) => Some(v@),
        None => None,
    }
}

impl View for Reading {
    type V = Draft;

    closed spec fn view(&self) -> Draft {
        Draft {
            lua_dll: maybe(self.lua_dll),
            src_dir: maybe(self.src_dir),
            runtime_dir: maybe(self.runtime_dir),
            runtime_lua: maybe(self.runtime_lua),
            build_xml: maybe(self.build_xml),
            bootstrap_path: maybe(self.bootstrap_path),
            score_fn: maybe(self.score_fn),
            candidate_fn: maybe(self.candidate_fn),
            workers: self.workers,
            w_dps: self.w_dps@,
            w_ehp: self.w_ehp@,
            penalty_k: self.penalty_k@,
        }
    }
}

impl Reading {
    /// Takes in one setting.
    fn set(&mut self, key: &Vec<char>, val: Vec<char>) -> (r: Result<(), String>)
        ensures
            match r {
                Ok(()) => set_one(old(self)@, key@, val@) == Ok::<Draft, Seq<char>>(final(self)@),
                Err(e) => set_one(old(self)@, key@, val@) == Err::<Draft, Seq<char>>(e@),
            },
    {
        if spells(key, "lua_dll") {
            self.lua_dll = Some(val);
        } else if spells(key, "src_dir") {
            self.src_dir = Some(val);
        } else if spells(key, "runtime_dir") {
            self.runtime_dir = Some(val);
        } else if spells(key, "runtime_lua") {
            self.runtime_lua = Some(val);
        } else if spells(key, "build_xml") {
            self.build_xml = Some(val);
        } else if spells(key, "bootstrap") {
            self.bootstrap_path = Some(val);
        } else if spells(key, "score_fn") {
            self.score_fn = Some(val);
        } else if spells(key, "candidate_fn") {
            self.candidate_fn = Some(val);
        } else if spells(key, "workers") {
            match parse_count(&val) {
                Some(w) => {
                    self.workers = Some(w);
                },
                None => {
                    return Err(around("config: workers='", &val, "' is not a number"));
                },
            }
        } else if spells(key, "w_dps") {
            if !is_real_number(&val) {
                return Err(around("config: w_dps='", &val, "' is not a number"));
            }
            self.w_dps = val;
        } else if spells(key, "w_ehp") {
            if !is_real_number(&val) {
                return Err(around("config: w_ehp='", &val, "' is not a number"));
            }
            self.w_ehp = val;
        } else if spells(key, "penalty_k") {
            if !is_real_number(&val) {
                return Err(around("config: penalty_k='", &val, "' is not a number"));
            }
            self.penalty_k = val;
        } else {
            return Err(around("config: unknown key '", key, "'"));
        }
        Ok(())
    }

    /// Takes in line number `n`.
    fn take_line(&mut self, raw: &Vec<char>, n: usize) -> (r: Result<(), String>)
        ensures
            match r {
                Ok(()) => read_line(old(self)@, raw@, n as nat) == Ok::<Draft, Seq<char>>(
                    final(self)@,
                ),
                Err(e) => read_line(old(self)@, raw@, n as nat) == Err::<Draft, Seq<char>>(e@),
            },
    {
        let line = trim(raw);
        if line.len() == 0 || line[0] == '#' {
            return Ok(());
        }
        let at: usize = match find(&line, '=') {
            Some(at) => at,
            None => {
                return Err(
                    around_two("config line ", &decimal_text(n), ": no '=' in '", &line, "'"),
                );
            },
        };
        proof {
            lemma_equals_sign(line@, at as int);
            assert(line@.subrange(0, at as int) =~= line@.take(at as int));
            assert(line@.subrange(at + 1, line@.len() as int) =~= line@.skip(at + 1));
            assert(line@[at as int] == '=');
        }
        let key = trim(&part(&line, 0, at));
        let val = trim(&part(&line, at + 1, line.len()));
        self.set(&key, val)
    }
}

/// What is said of a required key that is missing.
fn missing_key(name: &str) -> (e: String)
    ensures
        e@ == "config: missing required key '"@ + name@ + "'"@,
{
    around("config: missing required key '", &chars_of(name), "'")
}

/// A fault stays, whatever follows.
proof fn lemma_first_fault(lines: Seq<Seq<char>>, n: int, e: Seq<char>)
    requires
        0 <= n <= lines.len(),
        read_lines(lines.take(n)) == Err::<Draft, Seq<char>>(e),
    ensures
        read_lines(lines) == Err::<Draft, Seq<char>>(e),
    decreases lines.len() - n,
{
    if n == lines.len() {
        assert(lines.take(n) =~= lines);
    } else {
        assert(lines.take(n + 1).drop_last() =~= lines.take(n));
        lemma_first_fault(lines, n + 1, e);
    }
}

/// Reads the settings of all lines.
fn read_settings(s: &str) -> (r: Result<Reading, String>)
    ensures
        match r {
            Ok(d) => read_lines(pieces(s@, |c: char| c == '\n')) == Ok::<
                Draft,
                Seq<char>,
            >(d@),
            Err(e) => read_lines(pieces(s@, |c: char| c == '\n')) == Err::<
                Draft,
                Seq<char>,
            >(e@),
        },
{
    let text = chars_of(s);
    let lines = split_lines(&text);
    let ghost parts = lines@.map_values(|p: Vec<char>| p@);
    let mut d = Reading {
        lua_dll: None,
        src_dir: None,
        runtime_dir: None,
        runtime_lua: None,
        build_xml: None,
        bootstrap_path: None,
        score_fn: None,
        candidate_fn: None,
        workers: None,
        w_dps: chars_of("1"),
        w_ehp: chars_of("1"),
        penalty_k: chars_of("5"),
    };
    let mut i: usize = 0;
    assert(parts.take(0) =~= Seq::empty());
    while i < lines.len()
        invariant
            i <= lines@.len(),
            parts == lines@.map_values(|p: Vec<char>| p@),
            parts == pieces(s@, |c: char| c == '\n'),
            read_lines(parts.take(i as int)) == Ok::<Draft, Seq<char>>(d@),
        decreases lines@.len() - i,
    {
        proof {
            assert(parts.take(i + 1).drop_last() =~= parts.take(i as int));
            assert(parts.take(i + 1).last() == lines@[i as int]@);
        }
        match d.take_line(&lines[i], i + 1) {
            Ok(()) => {},
            Err(e) => {
                proof {
                    lemma_first_fault(parts, i + 1, e@);
                }
                return Err(e);
            },
        }
        i = i + 1;
    }
    assert(parts.take(i as int) =~= parts);
    Ok(d)
}

impl Config {
    /// Reads a configuration: `key=value` lines, with blank lines and comments
    /// between them. Values may hold equals signs. `cores` stands for the number of
    /// workers where none is given.
    pub fn parse(s: &str, cores: usize) -> (r: Result<Config, String>)
        ensures
            match r {
                Ok(c) => configured(s@, cores) == Ok::<Settings, Seq<char>>(c@),
                Err(e) => configured(s@, cores) == Err::<Settings, Seq<char>>(e@),
            },
    {
        let d: Reading = match read_settings(s) {
            Ok(d) => d,
            Err(e) => {
                return Err(e);
            },
        };
        let lua_dll: String = match d.lua_dll {
            Some(v) => text_of(&v),
            None => {
                return Err(missing_key("lua_dll"));
            },
        };
        let src_dir: String = match d.src_dir {
            Some(v) => text_of(&v),
            None => {
                return Err(missing_key("src_dir"));
            },
        };
        let runtime_dir: String = match d.runtime_dir {
            Some(v) => text_of(&v),
            None => {
                return Err(missing_key("runtime_dir"));
            },
        };
        let runtime_lua: String = match d.runtime_lua {
            Some(v) => text_of(&v),
            None => {
                return Err(missing_key("runtime_lua"));
            },
        };
        let build_xml: String = match d.build_xml {
            Some(v) => text_of(&v),
            None => {
                return Err(missing_key("build_xml"));
            },
        };
        let bootstrap_path: String = match d.bootstrap_path {
            Some(v) => text_of(&v),
            None => {
                return Err(missing_key("bootstrap"));
            },
        };
        let score_fn: String = match d.score_fn {
            Some(v) => text_of(&v),
            None => {
                return Err(missing_key("score_fn"));
            },
        };
        let candidate_fn: String = match d.candidate_fn {
            Some(v) => text_of(&v),
            None => String::new(),
        };
        let workers: usize = match d.workers {
            Some(w) => if w == 0 {
                cores
            } else {
                w
            },
            None => cores,
        };
        Ok(
            Config {
                lua_dll,
                src_dir,
                runtime_dir,
                runtime_lua,
                build_xml,
                bootstrap_path,
                score_fn,
                candidate_fn,
                workers,
                w_dps: text_of(&d.w_dps),
                w_ehp: text_of(&d.w_ehp),
                penalty_k: text_of(&d.penalty_k),
            },
        )
    }
}

/// A path with forward slashes, as a text in the engine's language takes it.
pub open spec fn forward(p: Seq<char>) -> Seq<char> {
    p.map_values(
        |c: char|
            if c == '\\' {
                '/'
            } else {
                c
            },
    )
}

/// A boot script with the paths filled in.
pub open spec fn with_paths(
    template: Seq<char>,
    runtime_lua: Seq<char>,
    runtime_dir: Seq<char>,
    build_xml: Seq<char>,
) -> Seq<char> {
    replaced(
        replaced(
            replaced(template, "@@RUNTIME_LUA@@"@, forward(runtime_lua)),
            "@@RUNTIME@@"@,
            forward(runtime_dir),
        ),
        "@@BUILD_XML@@"@,
        forward(build_xml),
    )
}

/// A path with forward slashes.
fn slashed(p: &str) -> (v: Vec<char>)
    ensures
        v@ == forward(p@),
{
    let chars = chars_of(p);
    let mut v: Vec<char> = Vec::new();
    let mut i: usize = 0;
    while i < chars.len()
        invariant
            i <= chars@.len(),
            v@ =~= forward(chars@.take(i as int)),
        decreases chars@.len() - i,
    {
        if chars[i] == '\\' {
            v.push('/');
        } else {
            v.push(chars[i]);
        }
        i = i + 1;
    }
    assert(chars@.take(i as int) =~= chars@);
    v
}

/// A path with forward slashes, as a text in the engine's language takes it.
pub fn lua_path(p: &str) -> (s: String)
    ensures
        s@ == forward(p@),
{
    text_of(&slashed(p))
}

/// A boot script with the paths filled in.
pub fn render_paths(
    template: &str,
    runtime_lua: &str,
    runtime_dir: &str,
    build_xml: &str,
) -> (s: String)
    ensures
        s@ == with_paths(template@, runtime_lua@, runtime_dir@, build_xml@),
{
    let a = replace(&chars_of(template), "@@RUNTIME_LUA@@", &slashed(runtime_lua));
    let b = replace(&a, "@@RUNTIME@@", &slashed(runtime_dir));
    let c = replace(&b, "@@BUILD_XML@@", &slashed(build_xml));
    text_of(&c)
}

impl Config {
    /// The boot script of the workers, from its template, with the paths, the
    /// weights and the strength of the penalty filled in. `w_dps`, `w_ehp` and
    /// `penalty_k` are these numbers as the engine's language writes them.
    pub fn render_bootstrap(
        &self,
        template: &str,
        w_dps: &str,
        w_ehp: &str,
        penalty_k: &str,
    ) -> (s: String)
        ensures
            s@ == replaced(
                replaced(
                    replaced(
                        with_paths(
                            template@,
                            self.runtime_lua@,
                            self.runtime_dir@,
                            self.build_xml@,
                        ),
                        "@@W_DPS@@"@,
                        w_dps@,
                    ),
                    "@@W_EHP@@"@,
                    w_ehp@,
                ),
                "@@PENALTY_K@@"@,
                penalty_k@,
            ),
    {
        let paths = render_paths(
            template,
            self.runtime_lua.as_str(),
            self.runtime_dir.as_str(),
            self.build_xml.as_str(),
        );
        let a = replace(&chars_of(paths.as_str()), "@@W_DPS@@", &chars_of(w_dps));
        let b = replace(&a, "@@W_EHP@@", &chars_of(w_ehp));
        let c = replace(&b, "@@PENALTY_K@@", &chars_of(penalty_k));
        text_of(&c)
    }
}

/// No two keys are the same.
proof fn lemma_keys_differ()
    ensures
        "lua_dll"@.len() == 7,
        "src_dir"@.len() == 7 && "src_dir"@[0] == 's' && "lua_dll"@[0] == 'l',
        "runtime_dir"@.len() == 11 && "runtime_lua"@.len() == 11,
        "runtime_dir"@[8] == 'd' && "runtime_lua"@[8] == 'l',
        "build_xml"@.len() == 9 && "build_xml"@[1] == 'u',
        "bootstrap"@.len() == 9 && "bootstrap"@[1] == 'o',
        "score_fn"@.len() == 8,
        "candidate_fn"@.len() == 12,
        "workers"@.len() == 7 && "workers"@[0] == 'w',
        "w_dps"@.len() == 5 && "w_dps"@[2] == 'd',
        "w_ehp"@.len() == 5 && "w_ehp"@[2] == 'e',
        "penalty_k"@.len() == 9 && "penalty_k"@[1] == 'e',
{
    reveal_strlit("lua_dll");
    reveal_strlit("src_dir");
    reveal_strlit("runtime_dir");
    reveal_strlit("runtime_lua");
    reveal_strlit("build_xml");
    reveal_strlit("bootstrap");
    reveal_strlit("score_fn");
    reveal_strlit("candidate_fn");
    reveal_strlit("workers");
    reveal_strlit("w_dps");
    reveal_strlit("w_ehp");
    reveal_strlit("penalty_k");
}

/// What each key sets, and nothing else. A text is taken as it stands; a number must be
/// one.
pub proof fn lemma_keys(d: Draft, val: Seq<char>)
    ensures
        set_one(d, "lua_dll"@, val) == Ok::<Draft, Seq<char>>(Draft { lua_dll: Some(val), ..d }),
        set_one(d, "src_dir"@, val) == Ok::<Draft, Seq<char>>(Draft { src_dir: Some(val), ..d }),
        set_one(d, "runtime_dir"@, val) == Ok::<Draft, Seq<char>>(
            Draft { runtime_dir: Some(val), ..d },
        ),
        set_one(d, "runtime_lua"@, val) == Ok::<Draft, Seq<char>>(
            Draft { runtime_lua: Some(val), ..d },
        ),
        set_one(d, "build_xml"@, val) == Ok::<Draft, Seq<char>>(
            Draft { build_xml: Some(val), ..d },
        ),
        set_one(d, "bootstrap"@, val) == Ok::<Draft, Seq<char>>(
            Draft { bootstrap_path: Some(val), ..d },
        ),
        set_one(d, "score_fn"@, val) == Ok::<Draft, Seq<char>>(Draft { score_fn: Some(val), ..d }),
        set_one(d, "candidate_fn"@, val) == Ok::<Draft, Seq<char>>(
            Draft { candidate_fn: Some(val), ..d },
        ),
        count_number(val) is Some ==> set_one(d, "workers"@, val) == Ok::<Draft, Seq<char>>(
            Draft { workers: count_number(val), ..d },
        ),
        count_number(val) is None ==> set_one(d, "workers"@, val) is Err,
        real_number(val) ==> set_one(d, "w_dps"@, val) == Ok::<Draft, Seq<char>>(
            Draft { w_dps: val, ..d },
        ),
        real_number(val) ==> set_one(d, "w_ehp"@, val) == Ok::<Draft, Seq<char>>(
            Draft { w_ehp: val, ..d },
        ),
        real_number(val) ==> set_one(d, "penalty_k"@, val) == Ok::<Draft, Seq<char>>(
            Draft { penalty_k: val, ..d },
        ),
        !real_number(val) ==> set_one(d, "w_dps"@, val) is Err && set_one(d, "w_ehp"@, val) is Err
            && set_one(d, "penalty_k"@, val) is Err,
{
    lemma_keys_differ();
}

/// A line sets what stands behind its first equals sign under the name before it. Blank
/// lines and lines that begin with a hash sign say nothing, and a line without an equals
/// sign is a fault.
pub proof fn lemma_lines(d: Draft, raw: Seq<char>, n: nat, at: int)
    requires
        trimmed(raw).contains('=') ==> first_at(trimmed(raw), '=', at),
    ensures
        ({
            let line = trimmed(raw);
            &&& line.len() == 0 || line[0] == '#' ==> read_line(d, raw, n) == Ok::<
                Draft,
                Seq<char>,
            >(d)
            &&& line.len() > 0 && line[0] != '#' && !line.contains('=') ==> read_line(
                d,
                raw,
                n,
            ) is Err
            &&& line.len() > 0 && line[0] != '#' && line.contains('=') ==> read_line(d, raw, n)
                == set_one(d, trimmed(line.take(at)), trimmed(line.skip(at + 1)))
        }),
{
    if trimmed(raw).contains('=') {
        lemma_equals_sign(trimmed(raw), at);
    }
}

/// What is made of all that was read. Every key is required but the function that lists
/// the candidates, the number of workers, the weights and the penalty. Without a number
/// of workers, or with none of them, there are as many as there are cores; the weights
/// are 1 and the penalty is 5 where nothing is said of them.
pub proof fn lemma_configured(s: Seq<char>, cores: usize)
    ensures
        match read_lines(pieces(s, |c: char| c == '\n')) {
            Err(e) => configured(s, cores) == Err::<Settings, Seq<char>>(e),
            Ok(d) => {
                let whole = d.lua_dll is Some && d.src_dir is Some && d.runtime_dir is Some
                    && d.runtime_lua is Some && d.build_xml is Some && d.bootstrap_path is Some
                    && d.score_fn is Some;
                &&& configured(s, cores) is Ok <==> whole
                &&& whole ==> {
                    let c = configured(s, cores)->Ok_0;
                    &&& Some(c.lua_dll) == d.lua_dll
                    &&& Some(c.src_dir) == d.src_dir
                    &&& Some(c.runtime_dir) == d.runtime_dir
                    &&& Some(c.runtime_lua) == d.runtime_lua
                    &&& Some(c.build_xml) == d.build_xml
                    &&& Some(c.bootstrap_path) == d.bootstrap_path
                    &&& Some(c.score_fn) == d.score_fn
                    &&& d.candidate_fn is Some ==> Some(c.candidate_fn) == d.candidate_fn
                    &&& d.candidate_fn is None ==> c.candidate_fn.len() == 0
                    &&& d.workers is Some && d.workers->0 > 0 ==> c.workers == d.workers->0
                    &&& d.workers is None || d.workers->0 == 0 ==> c.workers == cores
                    &&& c.w_dps == d.w_dps
                    &&& c.w_ehp == d.w_ehp
                    &&& c.penalty_k == d.penalty_k
                }
            },
        },
        read_lines(Seq::empty()) is Ok,
        read_lines(Seq::empty())->Ok_0.w_dps == "1"@,
        read_lines(Seq::empty())->Ok_0.w_ehp == "1"@,
        read_lines(Seq::empty())->Ok_0.penalty_k == "5"@,
        read_lines(Seq::empty())->Ok_0.workers is None,
        read_lines(Seq::empty())->Ok_0.candidate_fn is None,
{
}

/// Lines are read one after the other; the first fault ends it.
pub proof fn lemma_lines_in_turn(lines: Seq<Seq<char>>, line: Seq<char>)
    ensures
        match read_lines(lines) {
            Ok(d) => read_lines(lines.push(line)) == read_line(d, line, lines.len() + 1),
            Err(e) => read_lines(lines.push(line)) == Err::<Draft, Seq<char>>(e),
        },
{
    assert(lines.push(line).drop_last() =~= lines);
}

/// Which texts write a number: digits, with digits behind a point or an exponent behind
/// the letter E where there are any, and a sign before them or none. A text with a
/// character that is no letter, digit, point or sign writes none, nor does an empty one.
pub proof fn lemma_numbers(a: Seq<char>, b: Seq<char>, e: Seq<char>, s: Seq<char>)
    requires
        a.len() > 0 && e.len() > 0,
        forall|i: int| 0 <= i < a.len() ==> '0' <= #[trigger] a[i] <= '9',
        forall|i: int| 0 <= i < b.len() ==> '0' <= #[trigger] b[i] <= '9',
        forall|i: int| 0 <= i < e.len() ==> '0' <= #[trigger] e[i] <= '9',
    ensures
        real_number(a),
        real_number(seq!['-'] + a),
        real_number(seq!['+'] + a),
        real_number(a + seq!['.'] + b),
        real_number(seq!['.'] + a),
        real_number(a + seq!['e', '-'] + e),
        real_number(a + seq!['E'] + e),
        s.len() == 0 ==> !real_number(s),
        (exists|i: int|
            0 <= i < s.len() && {
                let c = #[trigger] s[i];
                !('0' <= c <= '9') && !('a' <= c <= 'z') && !('A' <= c <= 'Z') && c != '.' && c
                    != '+' && c != '-'
            }) ==> !real_number(s),
{
    lemma_plain_numbers(a, b, e);
    reveal_strlit("inf");
    reveal_strlit("infinity");
    reveal_strlit("nan");
    let t = unsigned_part(s);
    if s.len() == 0 {
        let m = t.map_values(|c: char| lower(c));
        assert(m.len() == 0);
    }
    if exists|i: int|
        0 <= i < s.len() && {
            let c = #[trigger] s[i];
            !('0' <= c <= '9') && !('a' <= c <= 'z') && !('A' <= c <= 'Z') && c != '.' && c != '+'
                && c != '-'
        } {
        let i = choose|i: int|
            0 <= i < s.len() && {
                let c = #[trigger] s[i];
                !('0' <= c <= '9') && !('a' <= c <= 'z') && !('A' <= c <= 'Z') && c != '.' && c
                    != '+' && c != '-'
            };
        let k: int = if t.len() < s.len() {
            i - 1
        } else {
            i
        };
        assert(t[k] == s[i]);
        lemma_strange(t, k);
    }
}

/// A text that is a word has its letters, in their places.
proof fn lemma_letter(t: Seq<char>, word: Seq<char>, k: int)
    requires
        reads(t, word),
        0 <= k < t.len(),
    ensures
        t.len() == word.len(),
        lower(t[k]) == word[k],
{
    assert(t.map_values(|c: char| lower(c))[k] == lower(t[k]));
}

/// A text with a character that no number has writes none.
proof fn lemma_strange(t: Seq<char>, k: int)
    requires
        0 <= k < t.len(),
        !('0' <= t[k] <= '9') && !('a' <= t[k] <= 'z') && !('A' <= t[k] <= 'Z'),
        t[k] != '.' && t[k] != '+' && t[k] != '-',
    ensures
        !decimal_number(t),
        !reads(t, "inf"@),
        !reads(t, "infinity"@),
        !reads(t, "nan"@),
{
    reveal_strlit("inf");
    reveal_strlit("infinity");
    reveal_strlit("nan");
    assert(lower(t[k]) == t[k]);
    if reads(t, "inf"@) {
        lemma_letter(t, "inf"@, k);
        assert(k == 0 || k == 1 || k == 2);
    }
    if reads(t, "infinity"@) {
        lemma_letter(t, "infinity"@, k);
        assert(k == 0 || k == 1 || k == 2 || k == 3 || k == 4 || k == 5 || k == 6 || k == 7);
    }
    if reads(t, "nan"@) {
        lemma_letter(t, "nan"@, k);
        assert(k == 0 || k == 1 || k == 2);
    }
    assert(!digit(t[k]));
    assert(!mantissa(t));
    if decimal_number(t) {
        let i = choose|i: int|
            0 <= i < t.len() && lower(#[trigger] t[i]) == 'e' && mantissa(t.take(i)) && all_digits(
                unsigned_part(t.skip(i + 1)),
            );
        if k < i {
            assert(t.take(i)[k] == t[k]);
        } else if i < k {
            let r = t.skip(i + 1);
            let u = unsigned_part(r);
            assert(r[k - i - 1] == t[k]);
            if u.len() < r.len() {
                assert(k - i - 1 > 0);
                assert(u[k - i - 2] == t[k]);
            }
        }
    }
}

/// Numbers as they are mostly written.
proof fn lemma_plain_numbers(a: Seq<char>, b: Seq<char>, e: Seq<char>)
    requires
        a.len() > 0 && e.len() > 0,
        forall|i: int| 0 <= i < a.len() ==> '0' <= #[trigger] a[i] <= '9',
        forall|i: int| 0 <= i < b.len() ==> '0' <= #[trigger] b[i] <= '9',
        forall|i: int| 0 <= i < e.len() ==> '0' <= #[trigger] e[i] <= '9',
    ensures
        real_number(a),
        real_number(seq!['-'] + a),
        real_number(seq!['+'] + a),
        real_number(a + seq!['.'] + b),
        real_number(seq!['.'] + a),
        real_number(a + seq!['e', '-'] + e),
        real_number(a + seq!['E'] + e),
{
    assert(all_digits(a));
    assert('0' <= a[0] <= '9');
    assert(unsigned_part(seq!['-'] + a) =~= a);
    assert(unsigned_part(seq!['+'] + a) =~= a);
    let p = a + seq!['.'] + b;
    assert(p[0] == a[0]);
    assert(unsigned_part(p) == p);
    assert(p[a.len() as int] == '.');
    assert forall|j: int| 0 <= j < p.len() && j != a.len() implies digit(#[trigger] p[j]) by {
        if j > a.len() {
            assert(p[j] == b[j - a.len() - 1]);
        }
    }
    assert(mantissa(p));
    let q = seq!['.'] + a;
    assert(q[0] == '.');
    assert(unsigned_part(q) == q);
    assert forall|j: int| 0 <= j < q.len() && j != 0 implies digit(#[trigger] q[j]) by {
        assert(q[j] == a[j - 1]);
    }
    assert(mantissa(q));
    let r = a + seq!['e', '-'] + e;
    assert(r[0] == a[0]);
    assert(r[a.len() as int] == 'e');
    assert(r.take(a.len() as int) =~= a);
    assert(unsigned_part(r.skip(a.len() as int + 1)) =~= e);
    assert(decimal_number(r));
    let u = a + seq!['E'] + e;
    assert(u[0] == a[0]);
    assert(u[a.len() as int] == 'E');
    assert(u.take(a.len() as int) =~= a);
    assert(u.skip(a.len() as int + 1) =~= e);
    assert('0' <= e[0] <= '9');
    assert(lower('E') == 'e');
    assert(decimal_number(u));
}

/// A path with forward slashes has a slash where there was one of either kind, and is
/// the same elsewhere.
pub proof fn lemma_forward(p: Seq<char>, i: int)
    requires
        0 <= i < p.len(),
    ensures
        forward(p).len() == p.len(),
        p[i] == '\\' ==> forward(p)[i] == '/',
        p[i] != '\\' ==> forward(p)[i] == p[i],
{
}

/// Whether a text is a name between two pairs of at signs.
spec fn marker(m: Seq<char>) -> bool {
    &&& m.len() > 4
    &&& m[0] == '@' && m[1] == '@' && m[m.len() - 2] == '@' && m[m.len() - 1] == '@'
    &&& forall|i: int| 2 <= i < m.len() - 2 ==> #[trigger] m[i] != '@'
}

/// Whether a text has no at sign.
pub open spec fn plain(s: Seq<char>) -> bool {
    forall|i: int| 0 <= i < s.len() ==> #[trigger] s[i] != '@'
}

/// The markers of the paths are markers.
proof fn lemma_markers()
    ensures
        marker("@@RUNTIME_LUA@@"@) && "@@RUNTIME_LUA@@"@.len() == 15,
        marker("@@RUNTIME@@"@) && "@@RUNTIME@@"@.len() == 11,
        marker("@@BUILD_XML@@"@) && "@@BUILD_XML@@"@.len() == 13,
{
    reveal_strlit("@@RUNTIME_LUA@@");
    reveal_strlit("@@RUNTIME@@");
    reveal_strlit("@@BUILD_XML@@");
}

/// A text without at signs stays as it is, whatever is filled in.
proof fn lemma_plain_stays(s: Seq<char>, m: Seq<char>, with: Seq<char>)
    requires
        plain(s) && marker(m),
    ensures
        replaced(s, m, with) == s,
{
    assert forall|i: int| 0 <= i <= s.len() - m.len() implies #[trigger] s.subrange(
        i,
        i + m.len(),
    ) != m by {
        assert(s.subrange(i, i + m.len())[0] == s[i]);
    }
    lemma_replaced(s, m, with, s);
}

/// A marker is replaced between texts without at signs.
proof fn lemma_filled(pre: Seq<char>, m: Seq<char>, post: Seq<char>, with: Seq<char>)
    requires
        plain(pre) && plain(post) && marker(m),
    ensures
        replaced(pre + m + post, m, with) == pre + with + post,
    decreases pre.len(),
{
    let s = pre + m + post;
    if pre.len() == 0 {
        assert(s =~= m + post);
        lemma_replaced(s, m, with, post);
        lemma_plain_stays(post, m, with);
        assert(pre + with + post =~= with + post);
    } else {
        let rest = pre.drop_first();
        assert(plain(rest)) by {
            assert forall|i: int| 0 <= i < rest.len() implies #[trigger] rest[i] != '@' by {
                assert(rest[i] == pre[i + 1]);
            }
        }
        lemma_filled(rest, m, post, with);
        assert(s[0] == pre[0] && pre[0] != '@');
        lemma_next_character(s, m, with);
        assert(s.drop_first() =~= rest + m + post);
        assert(pre + with + post =~= seq![pre[0]] + (rest + with + post));
    }
}

/// A character that is no at sign is kept.
proof fn lemma_next_character(s: Seq<char>, m: Seq<char>, with: Seq<char>)
    requires
        s.len() > 0 && s[0] != '@' && marker(m),
    ensures
        replaced(s, m, with) == seq![s[0]] + replaced(s.drop_first(), m, with),
{
    lemma_replaced(s, m, with, s);
}

/// A marker of another length stands nowhere around this one.
proof fn lemma_other_marker(
    pre: Seq<char>,
    m: Seq<char>,
    post: Seq<char>,
    other: Seq<char>,
    with: Seq<char>,
)
    requires
        plain(pre) && plain(post) && marker(m) && marker(other),
        m.len() != other.len(),
    ensures
        replaced(pre + m + post, other, with) == pre + m + post,
{
    let s = pre + m + post;
    let n: int = other.len() as int;
    let a: int = pre.len() as int;
    let b: int = a + m.len();
    assert forall|k: int| 0 <= k < s.len() && #[trigger] s[k] == '@' implies k == a || k == a + 1
        || k == b - 2 || k == b - 1 by {
        if k >= b {
            assert(s[k] == post[k - b]);
        } else if a <= k {
            assert(s[k] == m[k - a]);
        }
    }
    assert forall|i: int| 0 <= i <= s.len() - other.len() implies #[trigger] s.subrange(
        i,
        i + other.len(),
    ) != other by {
        let t = s.subrange(i, i + other.len());
        assert(t[0] == s[i] && t[1] == s[i + 1] && t[n - 2] == s[i + n - 2] && t[n - 1] == s[i + n
            - 1]);
    }
    lemma_replaced(s, other, with, post);
}

/// A boot script has each path, with forward slashes, where its marker stood, and is the
/// same around it.
pub proof fn lemma_paths_are_filled_in(
    pre: Seq<char>,
    post: Seq<char>,
    lua: Seq<char>,
    dir: Seq<char>,
    xml: Seq<char>,
)
    requires
        plain(pre) && plain(post) && plain(lua) && plain(dir) && plain(xml),
    ensures
        with_paths(pre + "@@RUNTIME_LUA@@"@ + post, lua, dir, xml) == pre + forward(lua) + post,
        with_paths(pre + "@@RUNTIME@@"@ + post, lua, dir, xml) == pre + forward(dir) + post,
        with_paths(pre + "@@BUILD_XML@@"@ + post, lua, dir, xml) == pre + forward(xml) + post,
        with_paths(pre, lua, dir, xml) == pre,
{
    let l = "@@RUNTIME_LUA@@"@;
    let d = "@@RUNTIME@@"@;
    let x = "@@BUILD_XML@@"@;
    lemma_markers();
    assert(plain(forward(lua)));
    assert(plain(forward(dir)));
    lemma_filled(pre, l, post, forward(lua));
    lemma_filled(pre, d, post, forward(dir));
    lemma_filled(pre, x, post, forward(xml));
    lemma_other_marker(pre, d, post, l, forward(lua));
    lemma_other_marker(pre, x, post, l, forward(lua));
    lemma_other_marker(pre, x, post, d, forward(dir));
    let a = pre + forward(lua) + post;
    let b = pre + forward(dir) + post;
    assert(plain(a));
    assert(plain(b));
    lemma_plain_stays(a, d, forward(dir));
    lemma_plain_stays(a, x, forward(xml));
    lemma_plain_stays(b, x, forward(xml));
    lemma_plain_stays(pre, l, forward(lua));
    lemma_plain_stays(pre, d, forward(dir));
    lemma_plain_stays(pre, x, forward(xml));
}

} // verus!

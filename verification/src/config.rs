//! The configuration of a solid, and its text format.
//!
//! A configuration is a record of named parameters; each is a scalar or a list of
//! scalars. (A count or a switch is held as a scalar.) A solid starts from its
//! defaults; a text of lines `key=value` replaces some of them. A scalar is written as a
//! decimal number, a list as numbers with commas between them. Empty lines are skipped.
//! The first line that cannot be applied ends the parse with an error that names its key.

use crate::number::index_from;
use crate::number::index_of;
use crate::number::lemma_index_from_bounds;
use crate::number::number;
use crate::number::parse_number;
use crate::number::NumberError;
use vstd::prelude::*;
use vstd::slice::slice_subrange;
use vstd::slice::slice_to_vec;

verus! {

/// The byte `,`.
pub const COMMA: u8 = 44;

/// The byte `=`.
pub const EQUALS: u8 = 61;

/// The byte that ends a line.
pub const NEWLINE: u8 = 10;

/// The value of a parameter.
#[derive(Debug, Clone, PartialEq, Eq)]
pub enum Value {
    Scalar(i64),
    List(Vec<i64>),
}

/// What a `Value` is in a contract.
pub enum ValueModel {
    Scalar(i64),
    List(Seq<i64>),
}

impl View for Value {
    type V = ValueModel;

    open spec fn view(&self) -> ValueModel {
        match self {
            Value::Scalar(v) => ValueModel::Scalar(*v),
            Value::List(l) => ValueModel::List(l@),
        }
    }
}

/// Why a text could not be applied to a configuration.
#[derive(Debug, Clone, PartialEq, Eq)]
pub enum ConfigError {
    /// The configuration has no parameter of this name.
    UnknownKey(Vec<u8>),
    /// The line holds this name and no `=`.
    MissingValue(Vec<u8>),
    /// The value given for this name is no number, for the cause named.
    InvalidNumber { key: Vec<u8>, cause: NumberError },
}

/// What a `ConfigError` is in a contract.
pub enum ConfigErrorModel {
    UnknownKey(Seq<u8>),
    MissingValue(Seq<u8>),
    InvalidNumber { key: Seq<u8>, cause: NumberError },
}

impl View for ConfigError {
    type V = ConfigErrorModel;

    open spec fn view(&self) -> ConfigErrorModel {
        match self {
            ConfigError::UnknownKey(k) => ConfigErrorModel::UnknownKey(k@),
            ConfigError::MissingValue(k) => ConfigErrorModel::MissingValue(k@),
            ConfigError::InvalidNumber { key, cause } => ConfigErrorModel::InvalidNumber {
                key: key@,
                cause: *cause,
            },
        }
    }
}

/// The named parameters of a solid.
#[derive(Debug, Clone, PartialEq, Eq)]
pub struct ShapeConfig {
    keys: Vec<Vec<u8>>,
    values: Vec<Value>,
}

/// What a `ShapeConfig` is in a contract: the names and, at the same places, the values.
pub struct ConfigModel {
    pub keys: Seq<Seq<u8>>,
    pub values: Seq<ValueModel>,
}

impl View for ShapeConfig {
    type V = ConfigModel;

    closed spec fn view(&self) -> ConfigModel {
        ConfigModel {
            keys: Seq::new(self.keys@.len(), |i: int| self.keys@[i]@),
            values: Seq::new(self.values@.len(), |i: int| self.values@[i]@),
        }
    }
}

/// The first place at or after `from` at which `keys` holds `key`, or the length of
/// `keys` if there is none.
pub open spec fn find_from(keys: Seq<Seq<u8>>, key: Seq<u8>, from: int) -> int
    decreases keys.len() - from,
{
    if from >= keys.len() {
        keys.len() as int
    } else if keys[from] == key {
        from
    } else {
        find_from(keys, key, from + 1)
    }
}

/// The first place at which `keys` holds `key`, or the length of `keys`.
pub open spec fn find(keys: Seq<Seq<u8>>, key: Seq<u8>) -> int {
    find_from(keys, key, 0)
}

/// What the text `s` says as a list: its pieces between commas, each a number. The
/// first piece that is no number decides the error.
pub open spec fn list(s: Seq<u8>) -> Result<Seq<i64>, NumberError>
    decreases s.len(),
{
    let comma = index_of(s, COMMA);
    match number(s.subrange(0, comma)) {
        Err(e) => Err(e),
        Ok(v) => if comma >= s.len() {
            Ok(seq![v])
        } else {
            proof {
                lemma_index_from_bounds(s, COMMA, 0);
            }
            match list(s.subrange(comma + 1, s.len() as int)) {
                Err(e) => Err(e),
                Ok(rest) => Ok(seq![v] + rest),
            }
        },
    }
}

/// The configuration `cfg` after the line `line` was applied: the name before the first
/// `=` must be a parameter of `cfg`, and what follows the `=` must be a value of the
/// kind that the parameter has, which then replaces its value.
pub open spec fn apply_line(cfg: ConfigModel, line: Seq<u8>) -> Result<
    ConfigModel,
    ConfigErrorModel,
> {
    let eq = index_of(line, EQUALS);
    let key = line.subrange(0, eq);
    let text = line.subrange(eq + 1, line.len() as int);
    let at = find(cfg.keys, key);
    if eq >= line.len() {
        Err(ConfigErrorModel::MissingValue(key))
    } else if at >= cfg.keys.len() {
        Err(ConfigErrorModel::UnknownKey(key))
    } else {
        match cfg.values[at] {
            ValueModel::Scalar(_) => match number(text) {
                Ok(v) => Ok(
                    ConfigModel {
                        keys: cfg.keys,
                        values: cfg.values.update(at, ValueModel::Scalar(v)),
                    },
                ),
                Err(e) => Err(ConfigErrorModel::InvalidNumber { key: key, cause: e }),
            },
            ValueModel::List(_) => match list(text) {
                Ok(l) => Ok(
                    ConfigModel {
                        keys: cfg.keys,
                        values: cfg.values.update(at, ValueModel::List(l)),
                    },
                ),
                Err(e) => Err(ConfigErrorModel::InvalidNumber { key: key, cause: e }),
            },
        }
    }
}

/// The text after its first line; nothing if the text has one line only.
pub open spec fn after_first_line(text: Seq<u8>) -> Seq<u8> {
    if index_of(text, NEWLINE) < text.len() {
        text.subrange(index_of(text, NEWLINE) + 1, text.len() as int)
    } else {
        Seq::empty()
    }
}

/// The configuration `cfg` after every line of `text` was applied in turn, or the error
/// of the first line that cannot be applied. Empty lines are skipped.
pub open spec fn apply_text(cfg: ConfigModel, text: Seq<u8>) -> Result<
    ConfigModel,
    ConfigErrorModel,
>
    decreases text.len(),
{
    let line = text.subrange(0, index_of(text, NEWLINE));
    if text.len() == 0 {
        Ok(cfg)
    } else if line.len() == 0 {
        proof {
            lemma_index_from_bounds(text, NEWLINE, 0);
        }
        apply_text(cfg, after_first_line(text))
    } else {
        proof {
            lemma_index_from_bounds(text, NEWLINE, 0);
        }
        match apply_line(cfg, line) {
            Ok(next) => apply_text(next, after_first_line(text)),
            Err(e) => Err(e),
        }
    }
}

/// `r` is the outcome `expected`, seen through the views.
pub open spec fn is_outcome(
    r: Result<ShapeConfig, ConfigError>,
    expected: Result<ConfigModel, ConfigErrorModel>,
) -> bool {
    match r {
        Ok(cfg) => cfg.wf() && expected == Ok::<ConfigModel, ConfigErrorModel>(cfg@),
        Err(e) => expected == Err::<ConfigModel, ConfigErrorModel>(e@),
    }
}

/// The index of the first `b` in `s` at or after `from`, or the length of `s`.
fn position_from(s: &[u8], b: u8, from: usize) -> (at: usize)
    requires
        from <= s@.len(),
    ensures
        at == index_from(s@, b, from as int),
        from <= at <= s@.len(),
        at < s@.len() ==> s@[at as int] == b,
{
    let mut i: usize = from;
    while i < s.len() && s[i] != b
        invariant
            from <= i <= s@.len(),
            index_from(s@, b, from as int) == index_from(s@, b, i as int),
        decreases s@.len() - i,
    {
        i = i + 1;
    }
    i
}

/// Whether two byte strings are the same.
fn same_bytes(a: &[u8], b: &[u8]) -> (same: bool)
    ensures
        same == (a@ == b@),
{
    if a.len() != b.len() {
        return false;
    }
    let mut i: usize = 0;
    while i < a.len()
        invariant
            a@.len() == b@.len(),
            0 <= i <= a@.len(),
            forall|k: int| 0 <= k < i ==> a@[k] == b@[k],
        decreases a@.len() - i,
    {
        if a[i] != b[i] {
            return false;
        }
        i = i + 1;
    }
    assert(a@ =~= b@);
    true
}

/// The numbers that the text `s` lists, in grid steps.
pub fn parse_list(s: &[u8]) -> (r: Result<Vec<i64>, NumberError>)
    ensures
        match r {
            Ok(l) => list(s@) == Ok::<Seq<i64>, NumberError>(l@),
            Err(e) => list(s@) == Err::<Seq<i64>, NumberError>(e),
        },
{
    let n = s.len();
    let mut out: Vec<i64> = Vec::new();
    let mut from: usize = 0;
    proof {
        assert(s@.subrange(0, n as int) =~= s@);
        match list(s@) {
            Ok(rest) => {
                assert(out@ + rest =~= rest);
            },
            Err(_) => {},
        }
    }
    loop
        invariant
            n == s@.len(),
            0 <= from <= n,
            match list(s@.subrange(from as int, n as int)) {
                Ok(rest) => list(s@) == Ok::<Seq<i64>, NumberError>(out@ + rest),
                Err(e) => list(s@) == Err::<Seq<i64>, NumberError>(e),
            },
        decreases n - from,
    {
        let ghost tail = s@.subrange(from as int, n as int);
        let comma = position_from(s, COMMA, from);
        proof {
            lemma_index_from_shift(s@, COMMA, from as int, from as int);
            assert(index_of(tail, COMMA) == comma - from);
            assert(tail.subrange(0, comma - from) =~= s@.subrange(from as int, comma as int));
            if comma < n {
                assert(tail.subrange(comma - from + 1, tail.len() as int) =~= s@.subrange(
                    comma + 1,
                    n as int,
                ));
            }
        }
        match parse_number(slice_subrange(s, from, comma)) {
            Err(e) => {
                return Err(e);
            },
            Ok(v) => {
                let ghost before = out@;
                out.push(v);
                if comma >= n {
                    proof {
                        assert(before + seq![v] =~= out@);
                    }
                    return Ok(out);
                }
                proof {
                    let rest_text = s@.subrange(comma + 1, n as int);
                    match list(rest_text) {
                        Ok(rest) => {
                            assert(before + (seq![v] + rest) =~= out@ + rest);
                        },
                        Err(_) => {},
                    }
                }
                from = comma + 1;
            },
        }
    }
}

/// Searching a part of a text from its start is searching the text from where the part
/// starts.
pub proof fn lemma_index_from_shift(s: Seq<u8>, b: u8, start: int, from: int)
    requires
        0 <= start <= from <= s.len(),
    ensures
        index_from(s.subrange(start, s.len() as int), b, from - start) == index_from(s, b, from)
            - start,
    decreases s.len() - from,
{
    let part = s.subrange(start, s.len() as int);
    if from < s.len() {
        assert(part[from - start] == s[from]);
        if s[from] != b {
            lemma_index_from_shift(s, b, start, from + 1);
        }
    }
}

impl ShapeConfig {
    /// Every name has its value.
    pub open spec fn wf(&self) -> bool {
        self@.keys.len() == self@.values.len()
    }

    /// A configuration without parameters.
    pub fn new() -> (cfg: ShapeConfig)
        ensures
            cfg.wf(),
            cfg@.keys.len() == 0,
    {
        ShapeConfig { keys: Vec::new(), values: Vec::new() }
    }

    /// The number of parameters.
    pub fn len(&self) -> (n: usize)
        ensures
            n == self@.keys.len(),
    {
        self.keys.len()
    }

    /// Adds the parameter `key` with the default `value`, after the parameters that are
    /// there.
    pub fn define(&mut self, key: Vec<u8>, value: Value)
        requires
            old(self).wf(),
        ensures
            final(self).wf(),
            final(self)@.keys == old(self)@.keys.push(key@),
            final(self)@.values == old(self)@.values.push(value@),
    {
        let ghost before = self@;
        self.keys.push(key);
        self.values.push(value);
        proof {
            assert(self@.keys =~= before.keys.push(key@));
            assert(self@.values =~= before.values.push(value@));
        }
    }

    /// The first place of the parameter `key`, if there is such a parameter.
    pub fn position(&self, key: &[u8]) -> (at: Option<usize>)
        ensures
            match at {
                Some(i) => i < self@.keys.len() && i == find(self@.keys, key@),
                None => find(self@.keys, key@) >= self@.keys.len(),
            },
    {
        let mut i: usize = 0;
        while i < self.keys.len()
            invariant
                0 <= i <= self@.keys.len(),
                find(self@.keys, key@) == find_from(self@.keys, key@, i as int),
            decreases self@.keys.len() - i,
        {
            if same_bytes(self.keys[i].as_slice(), key) {
                return Some(i);
            }
            i = i + 1;
        }
        None
    }

    /// The value of the parameter `key`, if there is such a parameter.
    pub fn value(&self, key: &[u8]) -> (v: Option<&Value>)
        requires
            self.wf(),
        ensures
            match v {
                Some(value) => find(self@.keys, key@) < self@.keys.len() && value@
                    == self@.values[find(self@.keys, key@)],
                None => find(self@.keys, key@) >= self@.keys.len(),
            },
    {
        match self.position(key) {
            Some(i) => Some(&self.values[i]),
            None => None,
        }
    }

    /// The value of the scalar parameter `key`; `None` if there is no such parameter or
    /// if it is a list.
    pub fn scalar(&self, key: &[u8]) -> (v: Option<i64>)
        requires
            self.wf(),
        ensures
            v is Some <==> find(self@.keys, key@) < self@.keys.len() && self@.values[find(
                self@.keys,
                key@,
            )] is Scalar,
            v matches Some(x) ==> self@.values[find(self@.keys, key@)] == ValueModel::Scalar(x),
    {
        match self.position(key) {
            Some(i) => match &self.values[i] {
                Value::Scalar(x) => Some(*x),
                Value::List(_) => None,
            },
            None => None,
        }
    }

    /// The value of the list parameter `key`; `None` if there is no such parameter or if
    /// it is a scalar.
    pub fn list(&self, key: &[u8]) -> (v: Option<&Vec<i64>>)
        requires
            self.wf(),
        ensures
            v is Some <==> find(self@.keys, key@) < self@.keys.len() && self@.values[find(
                self@.keys,
                key@,
            )] is List,
            v matches Some(l) ==> self@.values[find(self@.keys, key@)] == ValueModel::List(l@),
    {
        match self.position(key) {
            Some(i) => match &self.values[i] {
                Value::Scalar(_) => None,
                Value::List(l) => Some(l),
            },
            None => None,
        }
    }

    /// The configuration after the line `line` was applied.
    pub fn parse_line(self, line: &[u8]) -> (r: Result<ShapeConfig, ConfigError>)
        requires
            self.wf(),
        ensures
            is_outcome(r, apply_line(self@, line@)),
    {
        let n = line.len();
        let eq = position_from(line, EQUALS, 0);
        let key = slice_subrange(line, 0, eq);
        if eq >= n {
            return Err(ConfigError::MissingValue(slice_to_vec(key)));
        }
        let text = slice_subrange(line, eq + 1, n);
        match self.position(key) {
            None => Err(ConfigError::UnknownKey(slice_to_vec(key))),
            Some(at) => {
                let mut cfg = self;
                let ghost before = cfg@;
                let is_scalar = match &cfg.values[at] {
                    Value::Scalar(_) => true,
                    Value::List(_) => false,
                };
                if is_scalar {
                    match parse_number(text) {
                        Ok(v) => {
                            cfg.values.set(at, Value::Scalar(v));
                            proof {
                                assert(cfg@.keys =~= before.keys);
                                assert(cfg@.values =~= before.values.update(
                                    at as int,
                                    ValueModel::Scalar(v),
                                ));
                            }
                            Ok(cfg)
                        },
                        Err(e) => Err(
                            ConfigError::InvalidNumber { key: slice_to_vec(key), cause: e },
                        ),
                    }
                } else {
                    match parse_list(text) {
                        Ok(l) => {
                            let ghost listed = l@;
                            cfg.values.set(at, Value::List(l));
                            proof {
                                assert(cfg@.keys =~= before.keys);
                                assert(cfg@.values =~= before.values.update(
                                    at as int,
                                    ValueModel::List(listed),
                                ));
                            }
                            Ok(cfg)
                        },
                        Err(e) => Err(
                            ConfigError::InvalidNumber { key: slice_to_vec(key), cause: e },
                        ),
                    }
                }
            },
        }
    }

    /// The configuration after every line of `text` was applied in turn; the error of
    /// the first line that cannot be applied.
    pub fn parse(self, text: &[u8]) -> (r: Result<ShapeConfig, ConfigError>)
        requires
            self.wf(),
        ensures
            is_outcome(r, apply_text(self@, text@)),
    {
        let n = text.len();
        let mut cfg = self;
        let mut from: usize = 0;
        proof {
            assert(text@.subrange(0, n as int) =~= text@);
        }
        while from < n
            invariant
                n == text@.len(),
                0 <= from <= n,
                cfg.wf(),
                apply_text(self@, text@) == apply_text(cfg@, text@.subrange(from as int, n as int)),
            decreases n - from,
        {
            let ghost tail = text@.subrange(from as int, n as int);
            let end = position_from(text, NEWLINE, from);
            proof {
                lemma_index_from_shift(text@, NEWLINE, from as int, from as int);
                assert(index_of(tail, NEWLINE) == end - from);
                assert(tail.subrange(0, end - from) =~= text@.subrange(from as int, end as int));
                if end < n {
                    assert(after_first_line(tail) =~= text@.subrange(end + 1, n as int));
                } else {
                    assert(after_first_line(tail) =~= text@.subrange(n as int, n as int));
                }
            }
            if end > from {
                match cfg.parse_line(slice_subrange(text, from, end)) {
                    Ok(next) => {
                        cfg = next;
                    },
                    Err(e) => {
                        return Err(e);
                    },
                }
            }
            from = if end < n {
                end + 1
            } else {
                n
            };
        }
        proof {
            assert(text@.subrange(n as int, n as int).len() == 0);
        }
        Ok(cfg)
    }
}

} // verus!

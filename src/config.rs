//! The reader of `key = value` lines, the check of `key -> type` schema lines,
//! and the mapping they build and read.
use vstd::prelude::*;
use vstd::hash_map::StringHashMap;
use crate::line::{
    count_arrows, count_arrows_of, count_char, count_of, find_arrow, find_char, first_arrow,
    first_index, ignore_error, ignores_errors, lemma_first_arrow_bounds, lemma_first_index_bounds,
    retrieve_key_value_str, should_skip, skipped, strip_comment, trim, trim_str,
};
use crate::literal::{type_accepts, validate_type};

verus! {

/// The bound on a value's length, in characters, where the bound is enforced.
pub const MAX_VALUE_LENGTH: usize = 4096;

/// How the reader treats lines: whether values are held to a length bound, and
/// whether a leading `-` silences a line's syntax errors.
#[derive(Clone, Copy, Debug, PartialEq, Eq, Structural)]
pub struct ParseOptions {
    pub enforce_max_value_length: bool,
    pub max_value_length: usize,
    pub honor_ignore_marker: bool,
}

impl ParseOptions {
    /// The reader used without a schema: no length bound, `-` honoured.
    pub fn schema_less() -> (r: ParseOptions)
        ensures
            r == (ParseOptions {
                enforce_max_value_length: false,
                max_value_length: MAX_VALUE_LENGTH,
                honor_ignore_marker: true,
            }),
    {
        ParseOptions {
            enforce_max_value_length: false,
            max_value_length: MAX_VALUE_LENGTH,
            honor_ignore_marker: true,
        }
    }

    /// The reader used with a schema: values bounded by `MAX_VALUE_LENGTH`, `-` honoured.
    pub fn with_schema() -> (r: ParseOptions)
        ensures
            r == (ParseOptions {
                enforce_max_value_length: true,
                max_value_length: MAX_VALUE_LENGTH,
                honor_ignore_marker: true,
            }),
    {
        ParseOptions {
            enforce_max_value_length: true,
            max_value_length: MAX_VALUE_LENGTH,
            honor_ignore_marker: true,
        }
    }
}

/// What went wrong, and in which input.
#[derive(Clone, Copy, Debug, PartialEq, Eq, Structural)]
pub enum ErrorKind {
    /// A line of the configuration could not be read.
    ConfigRead,
    /// A line of the schema could not be read.
    SchemaRead,
    /// A configuration line without exactly one `=` in its usable part.
    MalformedPair,
    /// A configuration value longer than the bound.
    ValueTooLong,
    /// A configuration key holding a space, a tab or an ideographic space.
    InvalidKey,
    /// A schema line without exactly one `->` in its usable part.
    MalformedSchemaLine,
    /// A value that does not fit the type its schema line names, or an unknown type.
    TypeMismatch,
}

/// An error with its place: the kind, the line (counted from 1) and the line's
/// text (for a read failure, what the reader reported).
#[derive(Debug)]
pub struct ParseError {
    pub kind: ErrorKind,
    pub line: usize,
    pub text: String,
}

/// The mapping from keys to values that the reader builds.
pub struct Config {
    entries: StringHashMap<String>,
}

impl View for Config {
    type V = Map<Seq<char>, Seq<char>>;

    closed spec fn view(&self) -> Map<Seq<char>, Seq<char>> {
        self.entries@.map_values(|v: String| v@)
    }
}

impl Config {
    /// An empty mapping.
    pub fn new() -> (r: Config)
        ensures
            r@ == Map::<Seq<char>, Seq<char>>::empty(),
    {
        let r = Config { entries: StringHashMap::new() };
        assert(r@ =~= Map::<Seq<char>, Seq<char>>::empty());
        r
    }

    /// The value stored under `key`.
    pub fn get(&self, key: &str) -> (r: Option<&String>)
        ensures
            match r {
                Some(v) => self@.contains_key(key@) && v@ == self@[key@],
                None => !self@.contains_key(key@),
            },
    {
        self.entries.get(key)
    }

    /// Whether a value is stored under `key`.
    pub fn contains_key(&self, key: &str) -> (r: bool)
        ensures
            r == self@.contains_key(key@),
    {
        self.entries.contains_key(key)
    }

    /// The number of keys.
    pub fn len(&self) -> (r: usize)
        ensures
            r == self@.len(),
    {
        assert(self@.dom() =~= self.entries@.dom());
        self.entries.len()
    }

    /// Whether no key is stored.
    pub fn is_empty(&self) -> (r: bool)
        ensures
            r == (self@.len() == 0),
    {
        self.len() == 0
    }

    /// Stores `value` under `key`, replacing what was there.
    pub fn insert(&mut self, key: String, value: String)
        ensures
            final(self)@ == old(self)@.insert(key@, value@),
    {
        self.entries.insert(key, value);
        assert(self@ =~= old(self)@.insert(key@, value@));
    }
}

/// The characters that a key may not hold: space, tab and U+3000.
pub open spec fn forbidden_in_key(c: char) -> bool {
    c == ' ' || c == '\t' || c == '\u{3000}'
}

pub open spec fn valid_key(k: Seq<char>) -> bool {
    forall|i: int| 0 <= i < k.len() ==> !forbidden_in_key(#[trigger] k[i])
}

/// The key of a configuration line: what precedes the `=`, trimmed.
pub open spec fn line_key(l: Seq<char>) -> Seq<char> {
    let s = strip_comment(l);
    trim(s.take(first_index(s, '=')))
}

/// The value of a configuration line: what follows the `=`, trimmed.
pub open spec fn line_value(l: Seq<char>) -> Seq<char> {
    let s = strip_comment(l);
    trim(s.skip(first_index(s, '=') + 1))
}

/// The syntax error of a line that is not skipped, if it has one.
pub open spec fn line_fault(opts: ParseOptions, l: Seq<char>) -> Option<ErrorKind> {
    if count_char(strip_comment(l), '=') != 1 {
        Some(ErrorKind::MalformedPair)
    } else if !valid_key(line_key(l)) {
        Some(ErrorKind::InvalidKey)
    } else if opts.enforce_max_value_length && line_value(l).len()
        > opts.max_value_length {
        Some(ErrorKind::ValueTooLong)
    } else {
        None
    }
}

/// The error on which a configuration line stops the reader, if any.
pub open spec fn line_abort(opts: ParseOptions, l: Seq<char>) -> Option<ErrorKind> {
    if skipped(l) || (opts.honor_ignore_marker && ignores_errors(l)) {
        None
    } else {
        line_fault(opts, l)
    }
}

/// Whether a configuration line stores a key.
pub open spec fn line_stores(opts: ParseOptions, l: Seq<char>) -> bool {
    !skipped(l) && line_fault(opts, l) is None
}

/// The mapping after one configuration line that does not stop the reader.
pub open spec fn apply_line(opts: ParseOptions, m: Map<Seq<char>, Seq<char>>, l: Seq<char>) -> Map<
    Seq<char>,
    Seq<char>,
> {
    if line_stores(opts, l) {
        m.insert(line_key(l), line_value(l))
    } else {
        m
    }
}

/// The mapping that the configuration lines build, or the first error with the
/// index of its line.
pub open spec fn read_lines(opts: ParseOptions, lines: Seq<Seq<char>>) -> Result<
    Map<Seq<char>, Seq<char>>,
    (ErrorKind, int),
>
    decreases lines.len(),
{
    if lines.len() == 0 {
        Ok(Map::empty())
    } else {
        match read_lines(opts, lines.drop_last()) {
            Err(e) => Err(e),
            Ok(m) => match line_abort(opts, lines.last()) {
                Some(k) => Err((k, lines.len() - 1)),
                None => Ok(apply_line(opts, m, lines.last())),
            },
        }
    }
}

/// The key that a schema line names: what precedes the `->`, trimmed.
pub open spec fn schema_key(l: Seq<char>) -> Seq<char> {
    let s = strip_comment(l);
    trim(s.take(first_arrow(s)))
}

/// The type that a schema line names: what follows the `->`, trimmed.
pub open spec fn schema_tag(l: Seq<char>) -> Seq<char> {
    let s = strip_comment(l);
    trim(s.skip(first_arrow(s) + 2))
}

/// The error of a schema line against a mapping, if it has one. A key that the
/// mapping lacks is no error.
pub open spec fn schema_fault(m: Map<Seq<char>, Seq<char>>, l: Seq<char>) -> Option<ErrorKind> {
    if skipped(l) {
        None
    } else if count_arrows(strip_comment(l)) != 1 {
        Some(ErrorKind::MalformedSchemaLine)
    } else if m.contains_key(schema_key(l)) && !type_accepts(schema_tag(l), m[schema_key(l)]) {
        Some(ErrorKind::TypeMismatch)
    } else {
        None
    }
}

/// The first error of the schema lines against a mapping, with the index of its line.
pub open spec fn check_lines(m: Map<Seq<char>, Seq<char>>, lines: Seq<Seq<char>>) -> Option<
    (ErrorKind, int),
>
    decreases lines.len(),
{
    if lines.len() == 0 {
        None
    } else {
        match check_lines(m, lines.drop_last()) {
            Some(e) => Some(e),
            None => match schema_fault(m, lines.last()) {
                Some(k) => Some((k, lines.len() - 1)),
                None => None,
            },
        }
    }
}

/// The outcome of reading configuration lines and checking them against schema lines.
pub open spec fn parse_outcome(
    opts: ParseOptions,
    conf: Seq<Seq<char>>,
    schema: Option<Seq<Seq<char>>>,
) -> Result<Map<Seq<char>, Seq<char>>, (ErrorKind, int)> {
    match read_lines(opts, conf) {
        Err(e) => Err(e),
        Ok(m) => match schema {
            None => Ok(m),
            Some(s) => match check_lines(m, s) {
                Some(e) => Err(e),
                None => Ok(m),
            },
        },
    }
}

/// The characters of each line.
pub open spec fn lines_view(v: Seq<String>) -> Seq<Seq<char>> {
    v.map_values(|s: String| s@)
}

pub open spec fn schema_view(schema: Option<&Vec<String>>) -> Option<Seq<Seq<char>>> {
    match schema {
        Some(s) => Some(lines_view(s@)),
        None => None,
    }
}

/// Whether an error belongs to the schema rather than the configuration.
pub open spec fn is_schema_error(k: ErrorKind) -> bool {
    k == ErrorKind::MalformedSchemaLine || k == ErrorKind::TypeMismatch || k == ErrorKind::SchemaRead
}

pub proof fn lemma_read_error_stays(opts: ParseOptions, lines: Seq<Seq<char>>, n: int)
    requires
        0 <= n <= lines.len(),
        read_lines(opts, lines.take(n)) is Err,
    ensures
        read_lines(opts, lines) == read_lines(opts, lines.take(n)),
    decreases lines.len() - n,
{
    if n < lines.len() {
        assert(lines.take(n + 1).drop_last() =~= lines.take(n));
        lemma_read_error_stays(opts, lines, n + 1);
    } else {
        assert(lines.take(n) =~= lines);
    }
}

pub proof fn lemma_check_error_stays(m: Map<Seq<char>, Seq<char>>, lines: Seq<Seq<char>>, n: int)
    requires
        0 <= n <= lines.len(),
        check_lines(m, lines.take(n)) is Some,
    ensures
        check_lines(m, lines) == check_lines(m, lines.take(n)),
    decreases lines.len() - n,
{
    if n < lines.len() {
        assert(lines.take(n + 1).drop_last() =~= lines.take(n));
        lemma_check_error_stays(m, lines, n + 1);
    } else {
        assert(lines.take(n) =~= lines);
    }
}

/// Whether `key` is free of spaces, tabs and ideographic spaces.
fn key_is_valid(key: &str) -> (r: bool)
    ensures
        r == valid_key(key@),
{
    let n = key.unicode_len();
    let mut i: usize = 0;
    while i < n
        invariant
            n == key@.len(),
            i <= n,
            forall|j: int| 0 <= j < i ==> !forbidden_in_key(#[trigger] key@[j]),
        decreases n - i,
    {
        let c = key.get_char(i);
        if c == ' ' || c == '\t' || c == '\u{3000}' {
            assert(forbidden_in_key(key@[i as int]));
            return false;
        }
        i = i + 1;
    }
    true
}

/// Reads one configuration line, numbered `line_no`, into `config`: stores its
/// key and value, skips it, or reports the syntax error that stops the reader.
pub fn read_config_line(config: &mut Config, options: &ParseOptions, line_no: usize, line: &str) -> (r:
    Result<(), ParseError>)
    ensures
        match r {
            Ok(()) => line_abort(*options, line@) is None && final(config)@ == apply_line(
                *options,
                old(config)@,
                line@,
            ),
            Err(e) => line_abort(*options, line@) == Some(e.kind) && e.line == line_no && e.text@
                == line@ && final(config)@ == old(config)@,
        },
{
    if should_skip(line) {
        return Ok(());
    }
    let kv = retrieve_key_value_str(line);
    let fault: Option<ErrorKind> = if count_of(kv, '=') != 1 {
        Some(ErrorKind::MalformedPair)
    } else {
        let p = find_char(kv, '=');
        proof {
            lemma_first_index_bounds(kv@, '=');
        }
        let n = kv.unicode_len();
        let key = trim_str(kv.substring_char(0, p));
        let value = trim_str(kv.substring_char(p + 1, n));
        assert(kv@.subrange(0, p as int) =~= kv@.take(p as int));
        assert(kv@.subrange(p + 1, n as int) =~= kv@.skip(p + 1));
        if !key_is_valid(key) {
            Some(ErrorKind::InvalidKey)
        } else if options.enforce_max_value_length && value.unicode_len()
            > options.max_value_length {
            Some(ErrorKind::ValueTooLong)
        } else {
            config.insert(String::from_str(key), String::from_str(value));
            None
        }
    };
    match fault {
        None => Ok(()),
        Some(kind) => {
            if options.honor_ignore_marker && ignore_error(line) {
                Ok(())
            } else {
                Err(ParseError { kind, line: line_no, text: String::from_str(line) })
            }
        },
    }
}

/// Checks one schema line, numbered `line_no`, against `config`.
pub fn check_schema_line(config: &Config, line_no: usize, line: &str) -> (r: Result<(), ParseError>)
    ensures
        match r {
            Ok(()) => schema_fault(config@, line@) is None,
            Err(e) => schema_fault(config@, line@) == Some(e.kind) && e.line == line_no && e.text@
                == line@,
        },
{
    if should_skip(line) {
        return Ok(());
    }
    let kv = retrieve_key_value_str(line);
    if count_arrows_of(kv) != 1 {
        return Err(
            ParseError {
                kind: ErrorKind::MalformedSchemaLine,
                line: line_no,
                text: String::from_str(line),
            },
        );
    }
    let p = find_arrow(kv);
    proof {
        lemma_first_arrow_bounds(kv@);
    }
    let n = kv.unicode_len();
    let key = trim_str(kv.substring_char(0, p));
    let tag = trim_str(kv.substring_char(p + 2, n));
    assert(kv@.subrange(0, p as int) =~= kv@.take(p as int));
    assert(kv@.subrange(p + 2, n as int) =~= kv@.skip(p + 2));
    match config.get(key) {
        Some(v) => {
            if validate_type(tag, v.as_str()) {
                Ok(())
            } else {
                Err(
                    ParseError {
                        kind: ErrorKind::TypeMismatch,
                        line: line_no,
                        text: String::from_str(line),
                    },
                )
            }
        },
        None => Ok(()),
    }
}

/// The options that `parse` reads with: the length bound holds where a schema is given.
pub open spec fn default_options(has_schema: bool) -> ParseOptions {
    ParseOptions {
        enforce_max_value_length: has_schema,
        max_value_length: MAX_VALUE_LENGTH,
        honor_ignore_marker: true,
    }
}

/// The text of the line that an error at index `i` of kind `k` points to.
pub open spec fn error_line(
    conf: Seq<Seq<char>>,
    schema: Option<Seq<Seq<char>>>,
    k: ErrorKind,
    i: int,
) -> Seq<char> {
    match schema {
        Some(s) if is_schema_error(k) => s[i],
        _ => conf[i],
    }
}

/// Reads the configuration lines with `options`, then checks the mapping
/// against the schema lines, if any. Returns the mapping, or the first error.
pub fn parse_with_options(options: &ParseOptions, conf: &Vec<String>, schema: Option<&Vec<String>>) -> (r:
    Result<Config, ParseError>)
    ensures
        match r {
            Ok(c) => parse_outcome(*options, lines_view(conf@), schema_view(schema)) == Ok::<
                _,
                (ErrorKind, int),
            >(c@),
            Err(e) => e.line >= 1 && parse_outcome(*options, lines_view(conf@), schema_view(schema))
                == Err::<Map<Seq<char>, Seq<char>>, _>((e.kind, e.line - 1)) && e.text@ == error_line(
                lines_view(conf@),
                schema_view(schema),
                e.kind,
                e.line - 1,
            ),
        },
{
    let ghost cv = lines_view(conf@);
    let mut config = Config::new();
    let mut i: usize = 0;
    assert(cv.take(0) =~= Seq::<Seq<char>>::empty());
    while i < conf.len()
        invariant
            i <= conf.len(),
            cv == lines_view(conf@),
            read_lines(*options, cv.take(i as int)) == Ok::<_, (ErrorKind, int)>(config@),
        decreases conf.len() - i,
    {
        proof {
            assert(cv.take(i + 1).drop_last() =~= cv.take(i as int));
        }
        match read_config_line(&mut config, options, i + 1, conf[i].as_str()) {
            Err(e) => {
                proof {
                    lemma_read_error_stays(*options, cv, i + 1);
                }
                return Err(e);
            },
            Ok(()) => {},
        }
        i = i + 1;
    }
    assert(cv.take(conf.len() as int) =~= cv);
    match schema {
        None => Ok(config),
        Some(lines) => {
            let ghost sv = lines_view(lines@);
            let mut j: usize = 0;
            assert(sv.take(0) =~= Seq::<Seq<char>>::empty());
            while j < lines.len()
                invariant
                    j <= lines.len(),
                    sv == lines_view(lines@),
                    schema_view(schema) == Some(sv),
                    cv == lines_view(conf@),
                    read_lines(*options, cv) == Ok::<_, (ErrorKind, int)>(config@),
                    check_lines(config@, sv.take(j as int)) is None,
                decreases lines.len() - j,
            {
                proof {
                    assert(sv.take(j + 1).drop_last() =~= sv.take(j as int));
                }
                match check_schema_line(&config, j + 1, lines[j].as_str()) {
                    Err(e) => {
                        proof {
                            lemma_check_error_stays(config@, sv, j + 1);
                            assert(sv.take(j + 1).last() == sv[j as int]);
                            assert(is_schema_error(e.kind));
                            assert(check_lines(config@, sv) == Some((e.kind, j as int)));
                            assert(e.text@ == sv[j as int]);
                        }
                        return Err(e);
                    },
                    Ok(()) => {},
                }
                j = j + 1;
            }
            assert(sv.take(lines.len() as int) =~= sv);
            Ok(config)
        },
    }
}

/// Reads the configuration lines, then checks the mapping against the schema
/// lines, if any. Values are held to `MAX_VALUE_LENGTH` where a schema is given;
/// a leading `-` silences a configuration line's syntax errors.
pub fn parse(conf: &Vec<String>, schema: Option<&Vec<String>>) -> (r: Result<Config, ParseError>)
    ensures
        match r {
            Ok(c) => parse_outcome(default_options(schema is Some), lines_view(conf@), schema_view(schema))
                == Ok::<_, (ErrorKind, int)>(c@),
            Err(e) => e.line >= 1 && parse_outcome(
                default_options(schema is Some),
                lines_view(conf@),
                schema_view(schema),
            ) == Err::<Map<Seq<char>, Seq<char>>, _>((e.kind, e.line - 1)) && e.text@ == error_line(
                lines_view(conf@),
                schema_view(schema),
                e.kind,
                e.line - 1,
            ),
        },
{
    let options = if schema.is_some() {
        ParseOptions::with_schema()
    } else {
        ParseOptions::schema_less()
    };
    parse_with_options(&options, conf, schema)
}

/// Reading the same lines twice gives the same outcome: the mapping depends on
/// the lines and the options alone.
pub proof fn law_parse_repeatable(
    opts: ParseOptions,
    conf: Seq<Seq<char>>,
    schema: Option<Seq<Seq<char>>>,
    first: Map<Seq<char>, Seq<char>>,
    second: Map<Seq<char>, Seq<char>>,
)
    requires
        parse_outcome(opts, conf, schema) == Ok::<_, (ErrorKind, int)>(first),
        parse_outcome(opts, conf, schema) == Ok::<_, (ErrorKind, int)>(second),
    ensures
        first == second,
{
}

/// The mapping that lines build from `m0`, each line applied in turn.
pub open spec fn apply_lines(
    opts: ParseOptions,
    m0: Map<Seq<char>, Seq<char>>,
    lines: Seq<Seq<char>>,
) -> Map<Seq<char>, Seq<char>>
    decreases lines.len(),
{
    if lines.len() == 0 {
        m0
    } else {
        apply_line(opts, apply_lines(opts, m0, lines.drop_last()), lines.last())
    }
}

proof fn lemma_apply_lines_union(
    opts: ParseOptions,
    m0: Map<Seq<char>, Seq<char>>,
    lines: Seq<Seq<char>>,
)
    ensures
        apply_lines(opts, m0, lines) == m0.union_prefer_right(
            apply_lines(opts, Map::empty(), lines),
        ),
    decreases lines.len(),
{
    if lines.len() == 0 {
        assert(m0.union_prefer_right(Map::empty()) =~= m0);
    } else {
        lemma_apply_lines_union(opts, m0, lines.drop_last());
        let r = apply_lines(opts, Map::empty(), lines.drop_last());
        let l = lines.last();
        if line_stores(opts, l) {
            assert(m0.union_prefer_right(r).insert(line_key(l), line_value(l)) =~= m0.union_prefer_right(
                r.insert(line_key(l), line_value(l)),
            ));
        }
    }
}

proof fn lemma_read_lines_ok(opts: ParseOptions, lines: Seq<Seq<char>>)
    requires
        read_lines(opts, lines) is Ok,
    ensures
        read_lines(opts, lines) == Ok::<_, (ErrorKind, int)>(
            apply_lines(opts, Map::empty(), lines),
        ),
        forall|i: int| 0 <= i < lines.len() ==> line_abort(opts, #[trigger] lines[i]) is None,
    decreases lines.len(),
{
    if lines.len() > 0 {
        lemma_read_lines_ok(opts, lines.drop_last());
        assert forall|i: int| 0 <= i < lines.len() implies line_abort(
            opts,
            #[trigger] lines[i],
        ) is None by {
            if i < lines.len() - 1 {
                assert(lines.drop_last()[i] == lines[i]);
            }
        }
    }
}

proof fn lemma_read_lines_append(
    opts: ParseOptions,
    a: Seq<Seq<char>>,
    b: Seq<Seq<char>>,
    m: Map<Seq<char>, Seq<char>>,
)
    requires
        read_lines(opts, a) == Ok::<_, (ErrorKind, int)>(m),
        forall|i: int| 0 <= i < b.len() ==> line_abort(opts, #[trigger] b[i]) is None,
    ensures
        read_lines(opts, a + b) == Ok::<_, (ErrorKind, int)>(apply_lines(opts, m, b)),
    decreases b.len(),
{
    if b.len() == 0 {
        assert(a + b =~= a);
    } else {
        assert forall|i: int| 0 <= i < b.len() - 1 implies line_abort(
            opts,
            #[trigger] b.drop_last()[i],
        ) is None by {
            assert(b.drop_last()[i] == b[i]);
        }
        lemma_read_lines_append(opts, a, b.drop_last(), m);
        assert((a + b).drop_last() =~= a + b.drop_last());
        assert(line_abort(opts, b[b.len() - 1]) is None);
    }
}

/// Reading the same lines a second time, right after the first, changes nothing:
/// every key they store is stored again with the same last value.
pub proof fn law_reading_twice_changes_nothing(
    opts: ParseOptions,
    conf: Seq<Seq<char>>,
    m: Map<Seq<char>, Seq<char>>,
)
    requires
        read_lines(opts, conf) == Ok::<_, (ErrorKind, int)>(m),
    ensures
        read_lines(opts, conf + conf) == Ok::<_, (ErrorKind, int)>(m),
{
    lemma_read_lines_ok(opts, conf);
    lemma_read_lines_append(opts, conf, conf, m);
    lemma_apply_lines_union(opts, m, conf);
    assert(m.union_prefer_right(m) =~= m);
}

/// A skipped line (empty, or opening with `#` or `;`) neither stops the reader
/// nor changes the mapping.
pub proof fn law_skipped_line_adds_nothing(
    opts: ParseOptions,
    lines: Seq<Seq<char>>,
    m: Map<Seq<char>, Seq<char>>,
    l: Seq<char>,
)
    requires
        read_lines(opts, lines) == Ok::<_, (ErrorKind, int)>(m),
        skipped(l),
    ensures
        read_lines(opts, lines.push(l)) == Ok::<_, (ErrorKind, int)>(m),
{
    assert(lines.push(l).drop_last() =~= lines);
}

/// A line that stores a key sets its value, whatever the key held before.
pub proof fn law_last_write_wins(
    opts: ParseOptions,
    lines: Seq<Seq<char>>,
    m: Map<Seq<char>, Seq<char>>,
    l: Seq<char>,
)
    requires
        read_lines(opts, lines) == Ok::<_, (ErrorKind, int)>(m),
        line_stores(opts, l),
    ensures
        read_lines(opts, lines.push(l)) == Ok::<_, (ErrorKind, int)>(
            m.insert(line_key(l), line_value(l)),
        ),
        read_lines(opts, lines.push(l))->Ok_0[line_key(l)] == line_value(l),
{
    assert(lines.push(l).drop_last() =~= lines);
}

/// A line with a syntax error is passed over when it opens with `-` (and the
/// mark is honoured); otherwise the reader stops on it, at its line.
pub proof fn law_error_suppression(
    opts: ParseOptions,
    lines: Seq<Seq<char>>,
    m: Map<Seq<char>, Seq<char>>,
    l: Seq<char>,
    k: ErrorKind,
)
    requires
        read_lines(opts, lines) == Ok::<_, (ErrorKind, int)>(m),
        !skipped(l),
        line_fault(opts, l) == Some(k),
    ensures
        opts.honor_ignore_marker && ignores_errors(l) ==> read_lines(opts, lines.push(l)) == Ok::<
            _,
            (ErrorKind, int),
        >(m),
        !ignores_errors(l) ==> read_lines(opts, lines.push(l)) == Err::<Map<Seq<char>, Seq<char>>, _>(
            (k, lines.len() as int),
        ),
{
    assert(lines.push(l).drop_last() =~= lines);
}

/// A key that holds a space, a tab or an ideographic space is refused, unless
/// the line opens with `-` and the mark is honoured.
pub proof fn law_key_whitespace_rejected(opts: ParseOptions, l: Seq<char>)
    requires
        !skipped(l),
        count_char(strip_comment(l), '=') == 1,
        exists|i: int| 0 <= i < line_key(l).len() && forbidden_in_key(#[trigger] line_key(l)[i]),
    ensures
        line_fault(opts, l) == Some(ErrorKind::InvalidKey),
        !(opts.honor_ignore_marker && ignores_errors(l)) ==> line_abort(opts, l) == Some(
            ErrorKind::InvalidKey,
        ),
{
}

/// A schema line whose key the mapping lacks never reports a type mismatch.
pub proof fn law_absent_key_passes(m: Map<Seq<char>, Seq<char>>, l: Seq<char>)
    requires
        !m.contains_key(schema_key(l)),
    ensures
        schema_fault(m, l) != Some(ErrorKind::TypeMismatch),
        count_arrows(strip_comment(l)) == 1 ==> schema_fault(m, l) is None,
{
}

} // verus!

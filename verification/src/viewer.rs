//! Companion types of the configuration viewer that ships beside the
//! consensus engine: formats, paths, validation outcomes and the small
//! services around them.  File reading, parsing and serving stay with
//! the host.

use vstd::prelude::*;
use vstd::string::StrSliceExecFns;

verus! {

/// The formats the viewer understands.
#[derive(Debug, Clone, PartialEq, Eq, Structural)]
pub enum ConfigType {
    Yaml,
    Json,
    Toml,
    Unknown,
}

/// The configuration templates the viewer can produce.
#[derive(Debug, Clone, PartialEq, Eq, Structural)]
pub enum TemplateType {
    Database,
    Redis,
    WebServer,
    Logger,
    Monitor,
    Unknown,
}

/// What can go wrong handling a configuration file.
#[derive(Debug)]
pub enum ConfigError {
    ParseConfigError,
    IoError,
    EmptyLine,
    InvalidFileExtension,
    EmptyPath,
    UnknownConfigType,
    EmptyContent,
    UnsupportedFormat { format: String },
    KeyNotFound,
    UnsupportedTemplateType,
    InvalidPath,
    InvalidEnvVar { env_var: String },
    NowRepositoryConfigNotSupportFunction,
    InvalidConfigPath(String),
}

/// What a validation rule can report.
#[derive(Debug)]
pub enum ValidationError {
    RequiredField { field: String },
    TypeMismatch { field: String, expected: String, actual: String },
    CustomRuleViolation { field: String, rule: String },
    UndefinedField { field: String },
}

/// What can go wrong producing a template.
#[derive(Debug)]
pub enum TemplateError {
    ParseTemplateError,
    TemplateNotFound,
    NowRepositoryTemplateNotSupportFunction,
    UnsupportedFormat { format: String },
    UnknownConfigType,
    IoError,
}

/// The outcome of validating a configuration against its rules.
#[derive(Debug)]
pub struct ValidationResult {
    pub is_valid: bool,
    pub errors: Vec<ValidationError>,
}

/// The query a watching client sends: which file to follow.
#[derive(Debug)]
pub struct WsQuery {
    pub file: String,
}

/// The envelope the serving layer wraps every answer in.
#[derive(Debug)]
pub struct RestResponse<T> {
    pub success: bool,
    pub code: u16,
    pub message: String,
    pub data: Option<T>,
}

/// Where and how verbosely the viewer logs.
#[derive(Debug, Clone)]
pub struct LogConfig {
    pub file: String,
    pub level: String,
}

/// Validates configurations against rule sets.
#[derive(Debug)]
pub struct ConfigValidationService;

/// Overlays environment variables onto a configuration.
#[derive(Debug)]
pub struct EnvOverrideService;

/// Whether `s` ends with `suffix`, character by character.
pub fn str_ends_with(s: &str, suffix: &str) -> (r: bool)
    ensures
        r <==> (s@.len() >= suffix@.len() && s@.skip(s@.len() - suffix@.len()) =~= suffix@),
{
    let n = s.unicode_len();
    let m = suffix.unicode_len();
    if n < m {
        return false;
    }
    let base = n - m;
    let mut i: usize = 0;
    while i < m
        invariant
            i <= m,
            base == s@.len() - suffix@.len(),
            n == s@.len(),
            m == suffix@.len(),
            forall|j: int| 0 <= j < i ==> s@[base + j] == suffix@[j],
        decreases m - i,
    {
        if s.get_char(base + i) != suffix.get_char(i) {
            proof {
                assert(s@[base + i as int] != suffix@[i as int]);
                assert(!(s@.skip(s@.len() - suffix@.len()) =~= suffix@));
            }
            return false;
        }
        i += 1;
    }
    proof {
        assert(s@.skip(s@.len() - suffix@.len()) =~= suffix@);
    }
    true
}

/// Position of the first line break, or the length when there is none.
pub open spec fn find_newline(s: Seq<char>) -> int
    decreases s.len(),
{
    if s.len() == 0 {
        0
    } else if s[0] == '\n' {
        0
    } else {
        1 + find_newline(s.drop_first())
    }
}

/// A line without its trailing carriage return, if it carried one.
pub open spec fn strip_cr(l: Seq<char>) -> Seq<char> {
    if l.len() > 0 && l.last() == '\r' {
        l.drop_last()
    } else {
        l
    }
}

/// The text split at line breaks, carriage returns stripped; a final
/// line break closes the last line rather than opening an empty one.
pub open spec fn split_lines(s: Seq<char>) -> Seq<Seq<char>>
    decreases s.len(),
{
    if s.len() == 0 {
        Seq::empty()
    } else {
        let p = find_newline(s);
        if 0 <= p < s.len() {
            seq![strip_cr(s.take(p))] + split_lines(s.skip(p + 1))
        } else {
            seq![strip_cr(s)]
        }
    }
}

/// Whether the line holds a comment mark anywhere.
pub open spec fn has_hash(l: Seq<char>) -> bool {
    exists|i: int| 0 <= i < l.len() && l[i] == '#'
}

/// The line after its leading spaces, tabs and carriage returns.
pub open spec fn skip_spaces(l: Seq<char>) -> Seq<char>
    decreases l.len(),
{
    if l.len() == 0 {
        l
    } else if l[0] == ' ' || l[0] == '\t' || l[0] == '\r' {
        skip_spaces(l.drop_first())
    } else {
        l
    }
}

/// The lines the viewer drops before parsing: comments, blank lines,
/// and document markers.
pub open spec fn line_ignored(l: Seq<char>) -> bool {
    ||| has_hash(l)
    ||| l.len() == 0
    ||| ({
        let t = skip_spaces(l);
        t.len() >= 3 && t[0] == '-' && t[1] == '-' && t[2] == '-'
    })
}

/// Lines joined with single line breaks and nothing at the end.
pub open spec fn join_lines(ls: Seq<Seq<char>>) -> Seq<char>
    decreases ls.len(),
{
    if ls.len() == 0 {
        Seq::empty()
    } else if ls.len() == 1 {
        ls[0]
    } else {
        ls[0] + seq!['\n'] + join_lines(ls.drop_first())
    }
}

/// A scan that saw no line break through `k` pins the first one there.
proof fn lemma_find_newline(s: Seq<char>, k: int)
    requires
        0 <= k <= s.len(),
        forall|j: int| 0 <= j < k ==> s[j] != '\n',
        k < s.len() ==> s[k] == '\n',
    ensures
        find_newline(s) == k,
    decreases k,
{
    if k == 0 {
    } else {
        assert(s[0] != '\n');
        assert(forall|j: int|
            0 <= j < s.drop_first().len() ==> (#[trigger] s.drop_first()[j]) == s[j + 1]);
        lemma_find_newline(s.drop_first(), k - 1);
    }
}

/// A scan that saw only spacing through `w` skips exactly that prefix.
proof fn lemma_skip_spaces(l: Seq<char>, w: int)
    requires
        0 <= w <= l.len(),
        forall|j: int| 0 <= j < w ==> l[j] == ' ' || l[j] == '\t' || l[j] == '\r',
        w < l.len() ==> !(l[w] == ' ' || l[w] == '\t' || l[w] == '\r'),
    ensures
        skip_spaces(l) == l.skip(w),
    decreases w,
{
    if w == 0 {
        assert(l.skip(0) =~= l);
    } else {
        assert(forall|j: int|
            0 <= j < l.drop_first().len() ==> (#[trigger] l.drop_first()[j]) == l[j + 1]);
        lemma_skip_spaces(l.drop_first(), w - 1);
        assert(l.drop_first().skip(w - 1) =~= l.skip(w));
    }
}

/// Joining one more line appends a break and the line.
proof fn lemma_join_push(ls: Seq<Seq<char>>, l: Seq<char>)
    requires
        ls.len() > 0,
    ensures
        join_lines(ls.push(l)) == join_lines(ls) + seq!['\n'] + l,
    decreases ls.len(),
{
    if ls.len() == 1 {
        assert(ls.push(l).drop_first() =~= Seq::<Seq<char>>::empty().push(l));
        assert(join_lines(ls.push(l).drop_first()) == l);
        assert(ls.push(l)[0] == ls[0]);
        assert(join_lines(ls.push(l)) =~= ls[0] + seq!['\n'] + l);
    } else {
        assert(ls.push(l).drop_first() =~= ls.drop_first().push(l));
        lemma_join_push(ls.drop_first(), l);
        assert(join_lines(ls.push(l)) =~= join_lines(ls) + seq!['\n'] + l);
    }
}

/// Strips the comment, blank and document-marker lines out of a
/// configuration text, keeping the order of what remains.
#[verifier::rlimit(100)]
pub fn delete_ignore_line(content: &str) -> (r: String)
    ensures
        r@ == join_lines(split_lines(content@).filter(|l: Seq<char>| !line_ignored(l))),
{
    let n = content.unicode_len();
    let mut out = String::new();
    let mut kept_any = false;
    let mut pos: usize = 0;
    let ghost total = content@;
    let ghost mut done: Seq<Seq<char>> = Seq::empty();
    proof {
        assert(total.skip(0) =~= total);
        assert(split_lines(total) =~= done + split_lines(total.skip(0)));
    }
    while pos < n
        invariant
            pos <= n,
            n == total.len(),
            total == content@,
            split_lines(total) == done + split_lines(total.skip(pos as int)),
            out@ == join_lines(done.filter(|l: Seq<char>| !line_ignored(l))),
            kept_any <==> done.filter(|l: Seq<char>| !line_ignored(l)).len() > 0,
        decreases n - pos,
    {
        let mut j: usize = pos;
        while j < n && content.get_char(j) != '\n'
            invariant
                pos <= j <= n,
                n == total.len(),
                total == content@,
                forall|t: int| pos <= t < j ==> total[t] != '\n',
            decreases n - j,
        {
            j += 1;
        }
        let ghost rem = total.skip(pos as int);
        proof {
            assert(forall|t: int| 0 <= t < rem.len() ==> (#[trigger] rem[t]) == total[pos + t]);
            lemma_find_newline(rem, j - pos as int);
        }
        let seg_end = j;
        let line_end = if seg_end > pos && content.get_char(seg_end - 1) == '\r' {
            seg_end - 1
        } else {
            seg_end
        };
        let ghost line = total.subrange(pos as int, line_end as int);
        proof {
            assert(rem.take(j - pos as int) =~= total.subrange(pos as int, seg_end as int));
            if seg_end > pos && total[seg_end - 1] == '\r' {
                assert(total.subrange(pos as int, seg_end as int).drop_last() =~= line);
            }
            assert(strip_cr(rem.take(j - pos as int)) =~= line);
            if j == n {
                assert(rem.take(j - pos as int) =~= rem);
                assert(strip_cr(rem) =~= line);
            }
        }
        // does the segment hold a comment mark?
        let mut has_h = false;
        let mut t: usize = pos;
        while t < line_end
            invariant
                pos <= t <= line_end,
                line_end <= n,
                n == total.len(),
                total == content@,
                has_h <==> exists|q: int| pos <= q < t && total[q] == '#',
            decreases line_end - t,
        {
            if content.get_char(t) == '#' {
                has_h = true;
            }
            t += 1;
        }
        proof {
            assert(forall|i: int|
                0 <= i < line.len() ==> (#[trigger] line[i]) == total[pos + i]);
            if has_h {
                let q = choose|q: int| pos <= q < line_end && total[q] == '#';
                assert(line[q - pos] == '#');
            }
            assert(has_h == has_hash(line));
        }
        // skip leading spacing, then look for a document marker
        let mut w: usize = pos;
        while w < line_end && (content.get_char(w) == ' ' || content.get_char(w) == '\t'
            || content.get_char(w) == '\r')
            invariant
                pos <= w <= line_end,
                line_end <= n,
                n == total.len(),
                total == content@,
                forall|q: int|
                    pos <= q < w ==> total[q] == ' ' || total[q] == '\t' || total[q] == '\r',
            decreases line_end - w,
        {
            w += 1;
        }
        proof {
            assert(forall|i: int|
                0 <= i < line.len() ==> (#[trigger] line[i]) == total[pos + i]);
            lemma_skip_spaces(line, w - pos as int);
            assert(skip_spaces(line) =~= line.skip(w - pos as int));
        }
        let dashes = line_end - w >= 3 && content.get_char(w) == '-' && content.get_char(w + 1)
            == '-' && content.get_char(w + 2) == '-';
        let ignored = has_h || line_end == pos || dashes;
        proof {
            let tail = skip_spaces(line);
            if line_end - w >= 3 {
                assert(tail[0] == total[w as int]);
                assert(tail[1] == total[w + 1]);
                assert(tail[2] == total[w + 2]);
            }
            assert(dashes == (tail.len() >= 3 && tail[0] == '-' && tail[1] == '-' && tail[2]
                == '-'));
            assert(ignored == line_ignored(line));
        }
        if !ignored {
            let ghost kept_before = done.filter(|l: Seq<char>| !line_ignored(l));
            if kept_any {
                out.append("\n");
                proof {
                    reveal_strlit("\n");
                    assert("\n"@ =~= seq!['\n']);
                }
            }
            out.append(content.substring_char(pos, line_end));
            proof {
                reveal(Seq::filter);
                assert(done.push(line).drop_last() =~= done);
                assert(done.push(line).filter(|l: Seq<char>| !line_ignored(l))
                    =~= kept_before.push(line));
                if kept_before.len() > 0 {
                    lemma_join_push(kept_before, line);
                    assert(out@ =~= join_lines(kept_before.push(line)));
                } else {
                    assert(out@ =~= line);
                    assert(join_lines(kept_before.push(line)) =~= line);
                }
            }
            kept_any = true;
        } else {
            proof {
                reveal(Seq::filter);
                assert(done.push(line).drop_last() =~= done);
                assert(done.push(line).filter(|l: Seq<char>| !line_ignored(l)) =~= done.filter(
                    |l: Seq<char>| !line_ignored(l),
                ));
            }
        }
        let next_pos = if j < n {
            j + 1
        } else {
            n
        };
        proof {
            if j < n {
                assert(rem.skip((j - pos as int) + 1) =~= total.skip(next_pos as int));
                assert(split_lines(rem) =~= seq![line] + split_lines(total.skip(next_pos as int)));
            } else {
                assert(total.skip(next_pos as int).len() == 0);
                assert(split_lines(rem) =~= seq![line]);
                assert(split_lines(rem) =~= seq![line] + split_lines(total.skip(next_pos as int)));
            }
            done = done.push(line);
            assert(done + split_lines(total.skip(next_pos as int)) =~= split_lines(total));
        }
        pos = next_pos;
    }
    proof {
        assert(split_lines(total.skip(n as int)).len() == 0);
        assert(done =~= split_lines(total));
    }
    out
}

/// A path names a configuration file when a nonempty stem carries one
/// of the known extensions.
pub open spec fn is_config_path(p: Seq<char>) -> bool {
    ||| (p.len() > ".json"@.len() && p.skip(p.len() - ".json"@.len()) == ".json"@)
    ||| (p.len() > ".yaml"@.len() && p.skip(p.len() - ".yaml"@.len()) == ".yaml"@)
    ||| (p.len() > ".toml"@.len() && p.skip(p.len() - ".toml"@.len()) == ".toml"@)
    ||| (p.len() > ".yml"@.len() && p.skip(p.len() - ".yml"@.len()) == ".yml"@)
}

/// A checked path to a configuration file.
#[derive(Debug, Clone)]
pub struct ConfigPath {
    inner: String,
}

impl ConfigPath {
    /// The path's characters.
    pub closed spec fn path(&self) -> Seq<char> {
        self.inner@
    }

    /// Accepts only a nonempty path naming a known format.
    pub fn new(inner: String) -> (r: Result<Self, ConfigError>)
        ensures
            inner@.len() == 0 ==> (r matches Err(ConfigError::InvalidConfigPath(p)) && p@
                == inner@),
            inner@.len() > 0 && !is_config_path(inner@) ==> r matches Err(
                ConfigError::UnsupportedFormat { format: _ },
            ),
            inner@.len() > 0 && is_config_path(inner@) ==> (r matches Ok(c) && c.path() == inner@),
    {
        if inner.as_str().unicode_len() == 0 {
            return Err(ConfigError::InvalidConfigPath(inner));
        }
        if !Self::is_config_file(inner.as_str()) {
            return Err(
                ConfigError::UnsupportedFormat {
                    format: String::from_str("not a valid config file"),
                },
            );
        }
        Ok(ConfigPath { inner })
    }

    /// The path as a borrowed string.
    pub fn as_str(&self) -> (r: &str)
        ensures
            r@ == self.path(),
    {
        self.inner.as_str()
    }

    /// The path as an owned string.
    pub fn as_string(&self) -> (r: String)
        ensures
            r@ == self.path(),
    {
        self.inner.clone()
    }

    /// Whether the path carries a known extension after a stem.
    fn is_config_file(path: &str) -> (r: bool)
        ensures
            r == is_config_path(path@),
    {
        let n = path.unicode_len();
        let json = ".json";
        let yaml = ".yaml";
        let toml = ".toml";
        let yml = ".yml";
        proof {
            reveal_strlit(".json");
            reveal_strlit(".yaml");
            reveal_strlit(".toml");
            reveal_strlit(".yml");
        }
        (n > 5 && str_ends_with(path, json)) || (n > 5 && str_ends_with(path, yaml)) || (n > 5
            && str_ends_with(path, toml)) || (n > 4 && str_ends_with(path, yml))
    }
}

/// Holds a configuration file's path and raw text for inspection and
/// conversion; the parsing itself is the host's part.
#[derive(Debug)]
pub struct FormatConverterService {
    pub config_path: ConfigPath,
    pub content: String,
}

impl FormatConverterService {
    /// Wraps a checked path and its file's text.
    pub fn new(config_path: ConfigPath, content: String) -> (r: Self)
        ensures
            r.config_path.path() == config_path.path(),
            r.content@ == content@,
    {
        FormatConverterService { config_path, content }
    }
}

/// Serves the built-in templates from memory.
#[derive(Debug)]
pub struct MemoryTemplateRepository;

impl MemoryTemplateRepository {
    /// A repository of the built-in templates.
    pub fn new() -> (r: Self) {
        MemoryTemplateRepository
    }

    /// The templates the repository can produce.
    pub fn get_supported_templates() -> (r: Vec<TemplateType>)
        ensures
            r@.len() == 3,
            r@[0] == TemplateType::Database,
            r@[1] == TemplateType::Redis,
            r@[2] == TemplateType::WebServer,
    {
        let mut out: Vec<TemplateType> = Vec::new();
        out.push(TemplateType::Database);
        out.push(TemplateType::Redis);
        out.push(TemplateType::WebServer);
        out
    }
}

/// Saves configurations under a base directory; the writing itself is
/// the host's part.
#[derive(Debug)]
pub struct FileConfigRepository {
    pub config_path: String,
}

impl FileConfigRepository {
    /// Where a named configuration is stored: `base/name`.
    pub fn get_config_save_path(&self, config_name: &str) -> (r: String)
        ensures
            r@ == self.config_path@ + "/"@ + config_name@,
    {
        let mut out = self.config_path.clone();
        out.append("/");
        out.append(config_name);
        out
    }
}

} // verus!

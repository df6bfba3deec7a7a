//! The command surface: whitespace tokenization of one input line, decimal
//! length parsing, and mapping the tokens to a command or a usage message.
use vstd::prelude::*;
use vstd::arithmetic::div_mod::{lemma_fundamental_div_mod, lemma_mod_bound};
use vstd::string::*;

verus! {

/// An ASCII whitespace character, as the tokenizer sees it.
pub open spec fn is_space(c: char) -> bool {
    c == ' ' || c == '\t' || c == '\n' || c == '\r' || c == '\u{c}'
}

/// The whitespace-separated tokens of `s`, in order, none empty.
pub open spec fn tokens_of(s: Seq<char>) -> Seq<Seq<char>>
    decreases s.len(),
{
    if s.len() == 0 {
        Seq::<Seq<char>>::empty()
    } else {
        let rest = tokens_of(s.drop_first());
        if is_space(s[0]) {
            rest
        } else if s.len() >= 2 && !is_space(s[1]) {
            seq![seq![s[0]] + rest[0]] + rest.drop_first()
        } else {
            seq![seq![s[0]]] + rest
        }
    }
}

/// A space-free token followed by a space (or the end) comes off the front.
pub proof fn lemma_tokens_prepend(t: Seq<char>, r: Seq<char>)
    requires
        t.len() > 0,
        forall|i: int| 0 <= i < t.len() ==> !is_space(#[trigger] t[i]),
        r.len() == 0 || is_space(r[0]),
    ensures
        tokens_of(t + r) == seq![t] + tokens_of(r),
    decreases t.len(),
{
    let s = t + r;
    assert(s[0] == t[0]);
    if t.len() == 1 {
        assert(s.drop_first() =~= r);
        if r.len() == 0 {
            assert(s.len() == 1);
            assert(tokens_of(r) == Seq::<Seq<char>>::empty());
            assert(tokens_of(s) =~~= seq![seq![s[0]]] + tokens_of(r));
            assert(seq![s[0]] =~= t);
            assert(tokens_of(s) =~~= seq![t] + tokens_of(r));
        } else {
            assert(s.len() >= 2 && s[1] == r[0]);
            assert(is_space(s[1]));
            assert(tokens_of(s) == seq![seq![s[0]]] + tokens_of(r));
            assert(seq![s[0]] =~= t);
            assert(tokens_of(s) =~~= seq![t] + tokens_of(r));
        }
    } else {
        let t1 = t.drop_first();
        assert(forall|i: int| 0 <= i < t1.len() ==> t1[i] == t[i + 1]);
        lemma_tokens_prepend(t1, r);
        assert(s.drop_first() =~= t1 + r);
        assert(s.len() >= 2);
        assert(s[1] == t[1]);
        assert(!is_space(s[1]));
        let rest = tokens_of(t1 + r);
        assert(rest == seq![t1] + tokens_of(r));
        assert(rest[0] == t1);
        assert(rest.drop_first() =~~= tokens_of(r));
        assert(seq![s[0]] + rest[0] =~= t);
        assert(tokens_of(s) =~~= seq![t] + tokens_of(r));
    }
}

fn is_space_char(c: char) -> (r: bool)
    ensures
        r == is_space(c),
{
    c == ' ' || c == '\t' || c == '\n' || c == '\r' || c == '\u{c}'
}

/// Split one input line into its whitespace-separated tokens.
#[verifier::loop_isolation(false)]
fn tokenize(s: &str) -> (r: Vec<String>)
    ensures
        r.deep_view() == tokens_of(s@),
{
    let n = s.unicode_len();
    let mut out: Vec<String> = Vec::new();
    let mut i: usize = 0;
    proof {
        assert(s@.skip(0) =~= s@);
    }
    while i < n
        invariant
            i <= n,
            tokens_of(s@) == out.deep_view() + tokens_of(s@.skip(i as int)),
        decreases n - i,
    {
        if is_space_char(s.get_char(i)) {
            proof {
                assert(s@.skip(i as int)[0] == s@[i as int]);
                assert(s@.skip(i as int).drop_first() =~= s@.skip(i as int + 1));
            }
            i = i + 1;
        } else {
            let start = i;
            let mut j = i + 1;
            while j < n && !is_space_char(s.get_char(j))
                invariant
                    start < j <= n,
                    forall|k: int| start <= k < j ==> !is_space(#[trigger] s@[k]),
                decreases n - j,
            {
                j = j + 1;
            }
            let piece = s.substring_char(start, j).to_owned();
            let ghost pv = piece@;
            let ghost prev = out.deep_view();
            out.push(piece);
            proof {
                assert(pv == s@.subrange(start as int, j as int));
                assert(pv.len() > 0);
                assert(forall|k: int| 0 <= k < pv.len() ==> pv[k] == s@[start + k]);
                assert(s@.skip(start as int) =~= pv + s@.skip(j as int));
                if j < n {
                    assert(s@.skip(j as int)[0] == s@[j as int]);
                    assert(is_space(s@[j as int]));
                } else {
                    assert(s@.skip(j as int) =~= Seq::<char>::empty());
                }
                lemma_tokens_prepend(pv, s@.skip(j as int));
                assert(out.deep_view() =~~= prev.push(pv));
                assert(tokens_of(s@) =~~= out.deep_view() + tokens_of(s@.skip(j as int)));
            }
            i = j;
        }
    }
    proof {
        assert(s@.skip(n as int) =~= Seq::<char>::empty());
        assert(tokens_of(Seq::<char>::empty()) == Seq::<Seq<char>>::empty());
        assert(out.deep_view() + tokens_of(s@.skip(n as int)) =~~= out.deep_view());
    }
    out
}

/// The numeric value of a digit character.
pub open spec fn digit_val(c: char) -> int {
    c as u32 - '0' as u32
}

pub open spec fn is_digit(c: char) -> bool {
    '0' <= c && c <= '9'
}

pub open spec fn all_digits(s: Seq<char>) -> bool {
    forall|i: int| 0 <= i < s.len() ==> is_digit(#[trigger] s[i])
}

/// The value of a digit string, most significant first.
pub open spec fn digits_val(s: Seq<char>) -> int
    decreases s.len(),
{
    if s.len() == 0 {
        0
    } else {
        digits_val(s.drop_last()) * 10 + digit_val(s.last())
    }
}

/// What `str::parse::<usize>` accepts: an optional leading `+`, then one or
/// more digits, whose value fits in `usize`.
pub open spec fn parse_usize_spec(s: Seq<char>) -> Option<int> {
    let t = if s.len() > 0 && s[0] == '+' {
        s.drop_first()
    } else {
        s
    };
    if t.len() > 0 && all_digits(t) && digits_val(t) <= usize::MAX {
        Some(digits_val(t))
    } else {
        None
    }
}

proof fn lemma_digits_nonneg(s: Seq<char>)
    requires
        all_digits(s),
    ensures
        digits_val(s) >= 0,
    decreases s.len(),
{
    if s.len() > 0 {
        let d = s.drop_last();
        assert(forall|i: int| 0 <= i < d.len() ==> #[trigger] d[i] == s[i]);
        lemma_digits_nonneg(d);
        assert(is_digit(s.last()));
    }
}

/// A digit string's value only grows as more digits follow.
proof fn lemma_digits_monotone(s: Seq<char>, j: int)
    requires
        all_digits(s),
        0 <= j <= s.len(),
    ensures
        digits_val(s.take(j)) <= digits_val(s),
    decreases s.len(),
{
    if j == s.len() {
        assert(s.take(j) =~= s);
    } else {
        let d = s.drop_last();
        assert(forall|i: int| 0 <= i < d.len() ==> #[trigger] d[i] == s[i]);
        assert(s.take(j) =~= d.take(j));
        lemma_digits_monotone(d, j);
        lemma_digits_nonneg(d);
        assert(is_digit(s.last()));
        assert(digits_val(s) == digits_val(d) * 10 + digit_val(s.last()));
        assert(digits_val(d) * 10 >= digits_val(d));
    }
}

/// Parse a decimal `usize` exactly as the standard library does.
#[verifier::loop_isolation(false)]
fn parse_usize(s: &str) -> (r: Option<usize>)
    ensures
        r matches Some(v) ==> parse_usize_spec(s@) == Some(v as int),
        r is None ==> parse_usize_spec(s@) is None,
{
    let n = s.unicode_len();
    let mut i: usize = 0;
    if n > 0 && s.get_char(0) == '+' {
        i = 1;
    }
    let ghost t = if s@.len() > 0 && s@[0] == '+' {
        s@.drop_first()
    } else {
        s@
    };
    proof {
        assert(t =~= s@.skip(i as int));
    }
    if i >= n {
        return None;
    }
    let mut val: usize = 0;
    let mut j = i;
    while j < n
        invariant
            i <= j <= n,
            t == s@.skip(i as int),
            t.len() == n - i,
            all_digits(t.take(j - i)),
            val == digits_val(t.take(j - i)),
        decreases n - j,
    {
        let c = s.get_char(j);
        let cu = c as u32;
        let ghost tpre = t.take(j - i);
        if cu < 48 || cu > 57 {
            proof {
                assert(t[j - i] == s@[j as int]);
                assert(!is_digit(t[j - i]));
            }
            return None;
        }
        let d = (cu - 48) as usize;
        proof {
            assert(t[j - i] == s@[j as int]);
            assert(is_digit(t[j - i]));
            assert(digit_val(t[j - i]) == d);
            assert(t.take(j - i + 1).drop_last() =~= tpre);
            assert(t.take(j - i + 1).last() == t[j - i]);
            assert(digits_val(t.take(j - i + 1)) == val * 10 + d);
            assert(all_digits(t.take(j - i + 1)));
            lemma_fundamental_div_mod((usize::MAX - d) as int, 10);
            lemma_mod_bound((usize::MAX - d) as int, 10);
        }
        let limit = (usize::MAX - d) / 10;
        if val > limit {
            proof {
                let q = ((usize::MAX - d) / 10) as int;
                assert(val * 10 >= (q + 1) * 10);
                assert((q + 1) * 10 == q * 10 + 10);
                assert(val * 10 + d > usize::MAX);
                if all_digits(t) {
                    lemma_digits_monotone(t, j - i + 1);
                    assert(digits_val(t) > usize::MAX);
                }
            }
            return None;
        }
        proof {
            let q = ((usize::MAX - d) / 10) as int;
            assert(val * 10 <= q * 10);
            assert(val * 10 + d <= usize::MAX);
        }
        val = val * 10 + d;
        j = j + 1;
    }
    proof {
        assert(t.take(n - i) =~= t);
        lemma_digits_nonneg(t);
    }
    Some(val)
}

/// Whether two strings hold the same characters.
fn str_eq(a: &str, b: &str) -> (r: bool)
    ensures
        r == (a@ == b@),
{
    let n = a.unicode_len();
    if n != b.unicode_len() {
        proof {
            assert(a@ != b@);
        }
        return false;
    }
    let mut i: usize = 0;
    while i < n
        invariant
            i <= n,
            n == a@.len() == b@.len(),
            forall|j: int| 0 <= j < i ==> a@[j] == b@[j],
        decreases n - i,
    {
        if a.get_char(i) != b.get_char(i) {
            return false;
        }
        i = i + 1;
    }
    proof {
        assert(a@ =~= b@);
    }
    true
}

/// One parsed shell command.
#[derive(Debug)]
pub enum Command {
    Create(String, String, String),
    Delete(String),
    Update(String, String, String),
    Login(String),
    List,
    Generate(String, String, usize),
    Help,
    Lock,
}

/// The spec-level form of a command.
pub enum CommandV {
    Create(Seq<char>, Seq<char>, Seq<char>),
    Delete(Seq<char>),
    Update(Seq<char>, Seq<char>, Seq<char>),
    Login(Seq<char>),
    List,
    Generate(Seq<char>, Seq<char>, int),
    Help,
    Lock,
}

pub open spec fn cmd_view(c: Command) -> CommandV {
    match c {
        Command::Create(d, u, p) => CommandV::Create(d@, u@, p@),
        Command::Delete(d) => CommandV::Delete(d@),
        Command::Update(d, u, p) => CommandV::Update(d@, u@, p@),
        Command::Login(d) => CommandV::Login(d@),
        Command::List => CommandV::List,
        Command::Generate(d, u, l) => CommandV::Generate(d@, u@, l as int),
        Command::Help => CommandV::Help,
        Command::Lock => CommandV::Lock,
    }
}

/// What a token list means: no tokens is no command; a known head with the
/// right arity is that command; anything else is the matching message.
pub open spec fn spec_parse(toks: Seq<Seq<char>>) -> Result<Option<CommandV>, Seq<char>> {
    if toks.len() == 0 {
        Ok(None)
    } else if toks[0] == "create"@ {
        if toks.len() != 4 {
            Err("Usage: create <domain> <username> <password>"@)
        } else {
            Ok(Some(CommandV::Create(toks[1], toks[2], toks[3])))
        }
    } else if toks[0] == "delete"@ {
        if toks.len() != 2 {
            Err("Usage: delete <domain>"@)
        } else {
            Ok(Some(CommandV::Delete(toks[1])))
        }
    } else if toks[0] == "update"@ {
        if toks.len() != 4 {
            Err("Usage: update <domain> <username> <password>"@)
        } else {
            Ok(Some(CommandV::Update(toks[1], toks[2], toks[3])))
        }
    } else if toks[0] == "login"@ {
        if toks.len() != 2 {
            Err("Usage: login <domain>"@)
        } else {
            Ok(Some(CommandV::Login(toks[1])))
        }
    } else if toks[0] == "list"@ {
        if toks.len() != 1 {
            Err("Usage: list"@)
        } else {
            Ok(Some(CommandV::List))
        }
    } else if toks[0] == "generate"@ {
        if toks.len() != 4 {
            Err("Usage: generate <domain> <username> <length>"@)
        } else {
            match parse_usize_spec(toks[3]) {
                Some(l) => Ok(Some(CommandV::Generate(toks[1], toks[2], l))),
                None => Err("Invalid length parameter"@),
            }
        }
    } else if toks[0] == "help"@ {
        if toks.len() != 1 {
            Err("Usage: help"@)
        } else {
            Ok(Some(CommandV::Help))
        }
    } else if toks[0] == "lock"@ {
        if toks.len() != 1 {
            Err("Usage: lock"@)
        } else {
            Ok(Some(CommandV::Lock))
        }
    } else {
        Err("Unknown command: "@ + toks[0])
    }
}

/// Parse one input line into a command, no command for a blank line, or the
/// usage or unknown-command message the line earns.
pub fn parse_command(input: &str) -> (r: Result<Option<Command>, String>)
    ensures
        match r {
            Ok(oc) => match oc {
                Some(c) => spec_parse(tokens_of(input@)) == Ok::<Option<CommandV>, Seq<char>>(
                    Some(cmd_view(c)),
                ),
                None => spec_parse(tokens_of(input@)) == Ok::<Option<CommandV>, Seq<char>>(None),
            },
            Err(m) => spec_parse(tokens_of(input@)) == Err::<Option<CommandV>, Seq<char>>(m@),
        },
{
    let toks = tokenize(input);
    let ghost tv = tokens_of(input@);
    if toks.len() == 0 {
        return Ok(None);
    }
    proof {
        assert(toks@[0]@ == tv[0]);
    }
    let head = toks[0].as_str();
    if str_eq(head, "create") {
        if toks.len() != 4 {
            return Err(String::from_str("Usage: create <domain> <username> <password>"));
        }
        proof {
            assert(toks@[1]@ == tv[1] && toks@[2]@ == tv[2] && toks@[3]@ == tv[3]);
        }
        return Ok(
            Some(Command::Create(toks[1].clone(), toks[2].clone(), toks[3].clone())),
        );
    }
    if str_eq(head, "delete") {
        if toks.len() != 2 {
            return Err(String::from_str("Usage: delete <domain>"));
        }
        proof {
            assert(toks@[1]@ == tv[1]);
        }
        return Ok(Some(Command::Delete(toks[1].clone())));
    }
    if str_eq(head, "update") {
        if toks.len() != 4 {
            return Err(String::from_str("Usage: update <domain> <username> <password>"));
        }
        proof {
            assert(toks@[1]@ == tv[1] && toks@[2]@ == tv[2] && toks@[3]@ == tv[3]);
        }
        return Ok(
            Some(Command::Update(toks[1].clone(), toks[2].clone(), toks[3].clone())),
        );
    }
    if str_eq(head, "login") {
        if toks.len() != 2 {
            return Err(String::from_str("Usage: login <domain>"));
        }
        proof {
            assert(toks@[1]@ == tv[1]);
        }
        return Ok(Some(Command::Login(toks[1].clone())));
    }
    if str_eq(head, "list") {
        if toks.len() != 1 {
            return Err(String::from_str("Usage: list"));
        }
        return Ok(Some(Command::List));
    }
    if str_eq(head, "generate") {
        if toks.len() != 4 {
            return Err(String::from_str("Usage: generate <domain> <username> <length>"));
        }
        proof {
            assert(toks@[1]@ == tv[1] && toks@[2]@ == tv[2] && toks@[3]@ == tv[3]);
        }
        match parse_usize(toks[3].as_str()) {
            Some(l) => {
                return Ok(Some(Command::Generate(toks[1].clone(), toks[2].clone(), l)));
            },
            None => {
                return Err(String::from_str("Invalid length parameter"));
            },
        }
    }
    if str_eq(head, "help") {
        if toks.len() != 1 {
            return Err(String::from_str("Usage: help"));
        }
        return Ok(Some(Command::Help));
    }
    if str_eq(head, "lock") {
        if toks.len() != 1 {
            return Err(String::from_str("Usage: lock"));
        }
        return Ok(Some(Command::Lock));
    }
    let mut m = String::from_str("Unknown command: ");
    m.append(head);
    Err(m)
}

} // verus!

use vstd::prelude::*;

verus! {

/// Whether `c` has the Unicode `White_Space` property, which is what
/// `char::is_whitespace` and `str::trim` go by.
pub open spec fn is_white_space(c: char) -> bool {
    let u = c as u32;
    ||| 0x9 <= u <= 0xd
    ||| u == 0x20
    ||| u == 0x85
    ||| u == 0xa0
    ||| u == 0x1680
    ||| 0x2000 <= u <= 0x200a
    ||| u == 0x2028
    ||| u == 0x2029
    ||| u == 0x202f
    ||| u == 0x205f
    ||| u == 0x3000
}

/// `s` without its leading white space.
pub open spec fn trim_start(s: Seq<char>) -> Seq<char>
    decreases s.len(),
{
    if s.len() > 0 && is_white_space(s[0]) {
        trim_start(s.drop_first())
    } else {
        s
    }
}

/// `s` without its trailing white space.
pub open spec fn trim_end(s: Seq<char>) -> Seq<char>
    decreases s.len(),
{
    if s.len() > 0 && is_white_space(s.last()) {
        trim_end(s.drop_last())
    } else {
        s
    }
}

/// `s` without leading and trailing white space.
pub open spec fn trimmed(s: Seq<char>) -> Seq<char> {
    trim_end(trim_start(s))
}

/// The characters of `s` before the first `stop` (all of `s` when there is none).
pub open spec fn until_char(s: Seq<char>, stop: char) -> Seq<char>
    decreases s.len(),
{
    if s.len() == 0 || s[0] == stop {
        Seq::empty()
    } else {
        seq![s[0]] + until_char(s.drop_first(), stop)
    }
}

/// The name a friend list shows for one friend: the text before the first tag,
/// without surrounding white space.
pub open spec fn friend_name(content: Seq<char>) -> Seq<char> {
    trimmed(until_char(content, '<'))
}

/// Relies on `str::trim`: it removes leading and trailing characters with the
/// `White_Space` property and nothing else.
#[verifier::external_body]
fn trim(s: &str) -> (r: String)
    ensures
        r@ == trimmed(s@),
{
    s.trim().to_string()
}

proof fn lemma_until_char(s: Seq<char>, stop: char, i: int)
    requires
        0 <= i <= s.len(),
        forall|k: int| 0 <= k < i ==> s[k] != stop,
        i == s.len() || s[i] == stop,
    ensures
        until_char(s, stop) == s.subrange(0, i),
    decreases s.len(),
{
    if s.len() > 0 && s[0] != stop {
        lemma_until_char(s.drop_first(), stop, i - 1);
        assert(s.subrange(0, i) =~= seq![s[0]] + s.drop_first().subrange(0, i - 1));
    } else {
        assert(s.subrange(0, i) =~= Seq::<char>::empty());
    }
}

/// The friend's name inside one entry of a friend list: the text before the first
/// `<`, trimmed. There always is one, possibly empty.
pub fn extract_friend_name(content: String) -> (r: Option<String>)
    ensures
        r matches Some(name) && name@ == friend_name(content@),
{
    let text = content.as_str();
    let n = text.unicode_len();
    let mut i: usize = 0;
    while i < n
        invariant
            n == text@.len(),
            text@ == content@,
            i <= n,
            forall|k: int| 0 <= k < i ==> text@[k] != '<',
        ensures
            i <= n,
            forall|k: int| 0 <= k < i ==> text@[k] != '<',
            i == n || text@[i as int] == '<',
        decreases n - i,
    {
        if text.get_char(i) == '<' {
            break;
        }
        i += 1;
    }
    proof {
        lemma_until_char(content@, '<', i as int);
    }
    let head = text.substring_char(0, i);
    Some(trim(head))
}

/// The characters of `s` after its last `sep` (all of `s` when there is none).
pub open spec fn after_last(s: Seq<char>, sep: char) -> Seq<char>
    decreases s.len(),
{
    if s.len() == 0 {
        s
    } else if s.last() == sep {
        Seq::empty()
    } else {
        after_last(s.drop_last(), sep).push(s.last())
    }
}

/// The country a profile header shows: its text, trimmed, after the last comma,
/// trimmed again ("City, Region, Country" gives "Country").
pub open spec fn country_of(header: Seq<char>) -> Seq<char> {
    trimmed(after_last(trimmed(header), ','))
}

/// `s` without tabs, newlines and spaces.
pub open spec fn without_blanks(s: Seq<char>) -> Seq<char> {
    s.filter(|c: char| c != '\t' && c != '\n' && c != ' ')
}

/// The value of a nonempty run of decimal digits.
pub open spec fn digits_value(s: Seq<char>) -> int
    decreases s.len(),
{
    if s.len() == 0 {
        0
    } else {
        digits_value(s.drop_last()) * 10 + (s.last() as int - '0' as int)
    }
}

/// Every character of `s` is an ASCII digit, and there is at least one.
pub open spec fn all_digits(s: Seq<char>) -> bool {
    s.len() > 0 && forall|i: int| 0 <= i < s.len() ==> '0' <= #[trigger] s[i] <= '9'
}

/// What `str::parse::<i32>` accepts: an optional `+` or `-`, then decimal digits,
/// of a value that fits in an `i32`.
pub open spec fn parsed_i32(s: Seq<char>) -> Option<i32> {
    let negative = s.len() > 0 && s[0] == '-';
    let body = if s.len() > 0 && (s[0] == '-' || s[0] == '+') {
        s.drop_first()
    } else {
        s
    };
    let value = if negative {
        -digits_value(body)
    } else {
        digits_value(body)
    };
    if all_digits(body) && i32::MIN <= value <= i32::MAX {
        Some(value as i32)
    } else {
        None
    }
}

/// The friend count a profile shows, from the text of its "Friends" counter: the
/// part after the last `;` once tabs, newlines and spaces are gone, read as a
/// number; 0 when that is not a number.
pub open spec fn friend_count_of(text: Seq<char>) -> i32 {
    match parsed_i32(after_last(without_blanks(trimmed(text)), ';')) {
        Some(v) => v,
        None => 0,
    }
}

/// Relies on `str::parse::<i32>` (`i32::from_str`): it accepts an optional sign
/// and decimal digits whose value fits, and nothing else.
#[verifier::external_body]
fn parse_i32(s: &str) -> (r: Option<i32>)
    ensures
        r == parsed_i32(s@),
{
    s.parse::<i32>().ok()
}

proof fn lemma_after_last(s: Seq<char>, sep: char, j: int)
    requires
        0 <= j <= s.len(),
        forall|k: int| j <= k < s.len() ==> s[k] != sep,
        j == 0 || s[j - 1] == sep,
    ensures
        after_last(s, sep) == s.subrange(j, s.len() as int),
    decreases s.len(),
{
    if s.len() > 0 {
        if j == s.len() {
            assert(s.subrange(j, s.len() as int) =~= Seq::<char>::empty());
        } else {
            lemma_after_last(s.drop_last(), sep, j);
            assert(s.subrange(j, s.len() as int) =~= s.drop_last().subrange(
                j,
                s.len() - 1,
            ).push(s.last()));
        }
    }
}

/// The characters of `text` after its last `sep`.
fn tail_after_last(text: &str, sep: char) -> (r: &str)
    ensures
        r@ == after_last(text@, sep),
{
    let n = text.unicode_len();
    let mut j: usize = n;
    while j > 0
        invariant
            n == text@.len(),
            j <= n,
            forall|k: int| j <= k < n ==> text@[k] != sep,
        ensures
            j <= n,
            forall|k: int| j <= k < n ==> text@[k] != sep,
            j == 0 || text@[j - 1] == sep,
        decreases j,
    {
        if text.get_char(j - 1) == sep {
            break;
        }
        j -= 1;
    }
    proof {
        lemma_after_last(text@, sep, j as int);
    }
    text.substring_char(j, n)
}

/// The country shown in a profile header.
pub fn country_from_header(header: &str) -> (r: String)
    ensures
        r@ == country_of(header@),
{
    let whole = trim(header);
    trim(tail_after_last(whole.as_str(), ','))
}

/// `text` without tabs, newlines and spaces.
fn strip_blanks(text: &str) -> (r: String)
    ensures
        r@ == without_blanks(text@),
{
    let n = text.unicode_len();
    let mut out = String::new();
    let mut i: usize = 0;
    while i < n
        invariant
            n == text@.len(),
            i <= n,
            out@ == text@.subrange(0, i as int).filter(|c: char| c != '\t' && c != '\n' && c != ' '),
        decreases n - i,
    {
        let c = text.get_char(i);
        proof {
            let f = |c: char| c != '\t' && c != '\n' && c != ' ';
            assert(text@.subrange(0, i + 1 as int) =~= text@.subrange(0, i as int).push(c));
            text@.subrange(0, i as int).lemma_filter_push(c, f);
        }
        if c != '\t' && c != '\n' && c != ' ' {
            out.append(text.substring_char(i, i + 1));
            proof {
                assert(text@.subrange(i as int, i + 1 as int) =~= seq![c]);
            }
        }
        i += 1;
    }
    assert(text@.subrange(0, n as int) =~= text@);
    out
}

/// The friend count shown by a profile's "Friends" counter; 0 when unreadable.
pub fn friend_count_from_text(text: &str) -> (r: i32)
    ensures
        r == friend_count_of(text@),
{
    let trimmed_text = trim(text);
    let compact = strip_blanks(trimmed_text.as_str());
    match parse_i32(tail_after_last(compact.as_str(), ';')) {
        Some(v) => v,
        None => 0,
    }
}

} // verus!

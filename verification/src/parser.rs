use vstd::prelude::*;
use vstd::string::*;
use vstd::std_specs::iter::IteratorSpec;

verus! {

broadcast use vstd::string::group_string_axioms;

/// The characters of a text.
pub fn text_chars(text: &str) -> (r: Vec<char>)
    ensures
        r@ == text@,
{
    let mut it = text.chars();
    let mut r: Vec<char> = Vec::new();
    loop
        invariant
            it.obeys_prophetic_iter_laws(),
            r@ + it.remaining() == text@,
        decreases text@.len() - r@.len(),
    {
        match it.next() {
            Some(c) => {
                r.push(c);
                assert(r@ + it.remaining() =~= text@);
            },
            None => {
                assert(r@ =~= text@);
                return r;
            },
        }
    }
}


/// Why a text is not a valid election.
#[derive(Debug, Clone)]
pub enum ParseError {
    /// The text has no line at all.
    EmptyFile,
    /// The first line names no candidate.
    NoCandidates,
    /// The first line names a candidate twice.
    DuplicateCandidate,
    /// A ballot has an empty name between `>` signs.
    InvalidBallotSyntax,
    /// A ballot names a candidate twice.
    RepeatedInBallot,
    /// A ballot names a candidate the first line does not.
    UnknownCandidate(String),
    /// A ballot names no candidate.
    EmptyBallot,
    /// There is no ballot.
    NoBallots,
}

/// The meaning of a `ParseError`, with the unknown name as characters.
pub enum ParseFailure {
    EmptyFile,
    NoCandidates,
    DuplicateCandidate,
    InvalidBallotSyntax,
    RepeatedInBallot,
    UnknownCandidate(Seq<char>),
    EmptyBallot,
    NoBallots,
}

impl View for ParseError {
    type V = ParseFailure;

    open spec fn view(&self) -> ParseFailure {
        match self {
            ParseError::EmptyFile => ParseFailure::EmptyFile,
            ParseError::NoCandidates => ParseFailure::NoCandidates,
            ParseError::DuplicateCandidate => ParseFailure::DuplicateCandidate,
            ParseError::InvalidBallotSyntax => ParseFailure::InvalidBallotSyntax,
            ParseError::RepeatedInBallot => ParseFailure::RepeatedInBallot,
            ParseError::UnknownCandidate(s) => ParseFailure::UnknownCandidate(s@),
            ParseError::EmptyBallot => ParseFailure::EmptyBallot,
            ParseError::NoBallots => ParseFailure::NoBallots,
        }
    }
}

/// White space as Unicode defines it (the `White_Space` property), which is what
/// `str::trim` removes.
pub open spec fn is_space(c: char) -> bool {
    let u = c as u32;
    ||| 0x9 <= u <= 0xd
    ||| u == 0x20
    ||| u == 0x85
    ||| u == 0xa0
    ||| u == 0x1680
    ||| 0x2000 <= u <= 0x200a
    ||| u == 0x2028
    ||| u == 0x2029
    ||| u == 0x202f
    ||| u == 0x205f
    ||| u == 0x3000
}

/// `s` without its leading white space.
pub open spec fn trim_start(s: Seq<char>) -> Seq<char>
    decreases s.len(),
{
    if s.len() > 0 && is_space(s[0]) {
        trim_start(s.drop_first())
    } else {
        s
    }
}

/// `s` without its trailing white space.
pub open spec fn trim_end(s: Seq<char>) -> Seq<char>
    decreases s.len(),
{
    if s.len() > 0 && is_space(s.last()) {
        trim_end(s.drop_last())
    } else {
        s
    }
}

/// `s` without leading or trailing white space.
pub open spec fn trim(s: Seq<char>) -> Seq<char> {
    trim_end(trim_start(s))
}

/// Trimming keeps a run of consecutive characters of `s`: everything before it and after
/// it is white space, and the run neither starts nor ends with white space.
pub proof fn lemma_trim_is_inner_run(s: Seq<char>) -> (ij: (int, int))
    ensures
        0 <= ij.0 <= ij.1 <= s.len(),
        trim(s) == s.subrange(ij.0, ij.1),
        forall|k: int| 0 <= k < ij.0 ==> is_space(#[trigger] s[k]),
        forall|k: int| ij.1 <= k < s.len() ==> is_space(#[trigger] s[k]),
        ij.0 < ij.1 ==> !is_space(s[ij.0]) && !is_space(s[ij.1 - 1]),
{
    let i = lemma_trim_start_run(s);
    let t = s.subrange(i, s.len() as int);
    let j = lemma_trim_end_run(t);
    assert(t.subrange(0, j) =~= s.subrange(i, i + j));
    assert forall|k: int| i + j <= k < s.len() implies is_space(#[trigger] s[k]) by {
        assert(t[k - i] == s[k]);
    }
    if j > 0 {
        assert(t[0] == s[i]);
        assert(t[j - 1] == s[i + j - 1]);
    }
    (i, i + j)
}

/// `trim_start` drops the leading white space of `s`: the `i` characters it drops are all
/// white space, and what is left does not start with white space.
pub proof fn lemma_trim_start_run(s: Seq<char>) -> (i: int)
    ensures
        0 <= i <= s.len(),
        trim_start(s) == s.subrange(i, s.len() as int),
        forall|k: int| 0 <= k < i ==> is_space(#[trigger] s[k]),
        i < s.len() ==> !is_space(s[i]),
    decreases s.len(),
{
    if s.len() > 0 && is_space(s[0]) {
        let i0 = lemma_trim_start_run(s.drop_first());
        assert(s.drop_first().subrange(i0, s.len() - 1) =~= s.subrange(i0 + 1, s.len() as int));
        assert forall|k: int| 0 <= k < i0 + 1 implies is_space(#[trigger] s[k]) by {
            if k > 0 {
                assert(s[k] == s.drop_first()[k - 1]);
            }
        }
        if i0 + 1 < s.len() {
            assert(s[i0 + 1] == s.drop_first()[i0]);
        }
        i0 + 1
    } else {
        assert(s.subrange(0, s.len() as int) =~= s);
        0
    }
}

/// `trim_end` drops the trailing white space of `s`: what is left is its first `j`
/// characters, all that follow are white space, and what is left does not end with white
/// space.
pub proof fn lemma_trim_end_run(s: Seq<char>) -> (j: int)
    ensures
        0 <= j <= s.len(),
        trim_end(s) == s.subrange(0, j),
        forall|k: int| j <= k < s.len() ==> is_space(#[trigger] s[k]),
        j > 0 ==> !is_space(s[j - 1]),
    decreases s.len(),
{
    if s.len() > 0 && is_space(s.last()) {
        let j0 = lemma_trim_end_run(s.drop_last());
        assert(s.drop_last().subrange(0, j0) =~= s.subrange(0, j0));
        assert forall|k: int| j0 <= k < s.len() implies is_space(#[trigger] s[k]) by {
            if k < s.len() - 1 {
                assert(s[k] == s.drop_last()[k]);
            }
        }
        if j0 > 0 {
            assert(s[j0 - 1] == s.drop_last()[j0 - 1]);
        }
        j0
    } else {
        assert(s.subrange(0, s.len() as int) =~= s);
        if s.len() > 0 {
            assert(s[s.len() - 1] == s.last());
        }
        s.len() as int
    }
}

/// The pieces of `s` between the separators `sep` (one more piece than separators).
pub open spec fn split(s: Seq<char>, sep: char) -> Seq<Seq<char>>
    decreases s.len(),
{
    if s.len() == 0 {
        seq![Seq::empty()]
    } else {
        let rest = split(s.drop_last(), sep);
        if s.last() == sep {
            rest.push(Seq::empty())
        } else {
            rest.update(rest.len() - 1, rest.last().push(s.last()))
        }
    }
}

/// The lines of a text: the pieces between newlines, without an empty last piece after
/// a final newline; an empty text has no line.
pub open spec fn lines(text: Seq<char>) -> Seq<Seq<char>> {
    if text.len() == 0 {
        Seq::empty()
    } else if text.last() == '\n' {
        split(text, '\n').drop_last()
    } else {
        split(text, '\n')
    }
}

/// The candidate names of a header: its `;`-separated pieces, trimmed, the empty ones left out.
pub open spec fn header_names(pieces: Seq<Seq<char>>) -> Seq<Seq<char>>
    decreases pieces.len(),
{
    if pieces.len() == 0 {
        Seq::empty()
    } else {
        let r = header_names(pieces.drop_last());
        let t = trim(pieces.last());
        if t.len() > 0 { r.push(t) } else { r }
    }
}

/// The ballot read from `parts` (the `>`-separated pieces of a line), after the
/// candidates `acc` already read from it.
pub open spec fn parse_parts(names: Seq<Seq<char>>, parts: Seq<Seq<char>>, acc: Seq<usize>) -> Result<Seq<usize>, ParseFailure>
    decreases parts.len(),
{
    if parts.len() == 0 {
        Ok(acc)
    } else {
        let name = trim(parts[0]);
        if name.len() == 0 {
            Err(ParseFailure::InvalidBallotSyntax)
        } else if names.contains(name) {
            let id = names.index_of(name) as usize;
            if acc.contains(id) {
                Err(ParseFailure::RepeatedInBallot)
            } else {
                parse_parts(names, parts.drop_first(), acc.push(id))
            }
        } else {
            Err(ParseFailure::UnknownCandidate(name))
        }
    }
}

/// The ballot on a line that is not blank.
pub open spec fn parse_ballot(names: Seq<Seq<char>>, line: Seq<char>) -> Result<Seq<usize>, ParseFailure> {
    match parse_parts(names, split(trim(line), '>'), Seq::empty()) {
        Ok(r) => if r.len() == 0 { Err(ParseFailure::EmptyBallot) } else { Ok(r) },
        Err(e) => Err(e),
    }
}

/// The ballots on `ls`, after the ballots `acc` already read; blank lines are skipped.
pub open spec fn parse_lines(names: Seq<Seq<char>>, ls: Seq<Seq<char>>, acc: Seq<Seq<usize>>) -> Result<Seq<Seq<usize>>, ParseFailure>
    decreases ls.len(),
{
    if ls.len() == 0 {
        Ok(acc)
    } else if trim(ls[0]).len() == 0 {
        parse_lines(names, ls.drop_first(), acc)
    } else {
        match parse_ballot(names, ls[0]) {
            Ok(b) => parse_lines(names, ls.drop_first(), acc.push(b)),
            Err(e) => Err(e),
        }
    }
}

/// What a text means: the candidate names of its first line and the ballots of the
/// others, or the first fault found, line by line and left to right.
pub open spec fn parse_spec(text: Seq<char>) -> Result<(Seq<Seq<char>>, Seq<Seq<usize>>), ParseFailure> {
    let ls = lines(text);
    if ls.len() == 0 {
        Err(ParseFailure::EmptyFile)
    } else {
        let names = header_names(split(ls[0], ';'));
        if names.len() == 0 {
            Err(ParseFailure::NoCandidates)
        } else if !names.no_duplicates() {
            Err(ParseFailure::DuplicateCandidate)
        } else {
            match parse_lines(names, ls.drop_first(), Seq::empty()) {
                Ok(bs) => if bs.len() == 0 { Err(ParseFailure::NoBallots) } else { Ok((names, bs)) },
                Err(e) => Err(e),
            }
        }
    }
}


/// The views of a sequence of character vectors.
pub open spec fn views(v: Seq<Vec<char>>) -> Seq<Seq<char>> {
    v.map_values(|x: Vec<char>| x@)
}

/// Whether `c` is white space.
pub fn is_space_char(c: char) -> (r: bool)
    ensures
        r == is_space(c),
{
    let u = c as u32;
    (0x9 <= u && u <= 0xd) || u == 0x20 || u == 0x85 || u == 0xa0 || u == 0x1680 || (0x2000 <= u && u
        <= 0x200a) || u == 0x2028 || u == 0x2029 || u == 0x202f || u == 0x205f || u == 0x3000
}

/// `s` without leading or trailing white space.
pub fn trim_chars(s: &Vec<char>) -> (r: Vec<char>)
    ensures
        r@ == trim(s@),
{
    let mut a: usize = 0;
    proof {
        assert(s@.skip(0) =~= s@);
    }
    while a < s.len() && is_space_char(s[a])
        invariant
            a <= s@.len(),
            trim_start(s@) == trim_start(s@.skip(a as int)),
        decreases s@.len() - a,
    {
        proof {
            assert(s@.skip(a as int).drop_first() =~= s@.skip(a + 1));
        }
        a = a + 1;
    }
    let ghost t = s@.skip(a as int);
    assert(trim_start(s@) == t);
    let mut b: usize = s.len();
    proof {
        assert(t.take(t.len() as int) =~= t);
    }
    while b > a && is_space_char(s[b - 1])
        invariant
            a <= b <= s@.len(),
            t == s@.skip(a as int),
            trim_end(t) == trim_end(t.take(b - a)),
        decreases b,
    {
        proof {
            assert(t.take(b - a).drop_last() =~= t.take(b - a - 1));
            assert(t.take(b - a).last() == s@[b - 1]);
        }
        b = b - 1;
    }
    let mut r: Vec<char> = Vec::new();
    let mut i: usize = a;
    while i < b
        invariant
            a <= i <= b,
            b <= s@.len(),
            r@ == s@.subrange(a as int, i as int),
        decreases b - i,
    {
        r.push(s[i]);
        proof {
            assert(r@ =~= s@.subrange(a as int, i + 1));
        }
        i = i + 1;
    }
    proof {
        assert(t.take(b - a) =~= s@.subrange(a as int, b as int));
        if b > a {
            assert(!is_space(t.take(b - a).last()));
        }
    }
    r
}

/// The pieces of `s` between the separators `sep`.
pub fn split_chars(s: &Vec<char>, sep: char) -> (r: Vec<Vec<char>>)
    ensures
        views(r@) == split(s@, sep),
        r@.len() >= 1,
{
    let mut done: Vec<Vec<char>> = Vec::new();
    let mut cur: Vec<char> = Vec::new();
    let mut i: usize = 0;
    proof {
        assert(s@.take(0) =~= Seq::<char>::empty());
        assert(views(done@).push(cur@) =~= split(s@.take(0), sep));
    }
    while i < s.len()
        invariant
            i <= s@.len(),
            views(done@).push(cur@) == split(s@.take(i as int), sep),
        decreases s@.len() - i,
    {
        let c = s[i];
        proof {
            assert(s@.take(i + 1).drop_last() =~= s@.take(i as int));
            assert(s@.take(i + 1).last() == c);
        }
        if c == sep {
            let piece = cur;
            done.push(piece);
            cur = Vec::new();
            proof {
                assert(views(done@).push(cur@) =~= split(s@.take(i + 1), sep));
            }
        } else {
            cur.push(c);
            proof {
                assert(views(done@).push(cur@) =~= split(s@.take(i + 1), sep));
            }
        }
        i = i + 1;
    }
    done.push(cur);
    proof {
        assert(s@.take(s@.len() as int) =~= s@);
        assert(views(done@) =~= split(s@, sep));
    }
    done
}

/// Whether two names are the same.
pub fn same_name(a: &Vec<char>, b: &Vec<char>) -> (r: bool)
    ensures
        r == (a@ == b@),
{
    if a.len() != b.len() {
        return false;
    }
    let mut i: usize = 0;
    while i < a.len()
        invariant
            a@.len() == b@.len(),
            i <= a@.len(),
            forall|j: int| 0 <= j < i ==> a@[j] == b@[j],
        decreases a@.len() - i,
    {
        if a[i] != b[i] {
            return false;
        }
        i = i + 1;
    }
    proof {
        assert(a@ =~= b@);
    }
    true
}

/// The position of `name` among distinct `names`, if it is there.
pub fn find_name(names: &Vec<Vec<char>>, name: &Vec<char>) -> (r: Option<usize>)
    requires
        views(names@).no_duplicates(),
    ensures
        match r {
            Some(i) => views(names@).contains(name@) && i == views(names@).index_of(name@) && i < names@.len(),
            None => !views(names@).contains(name@),
        },
{
    let ghost vn = views(names@);
    let mut i: usize = 0;
    while i < names.len()
        invariant
            vn == views(names@),
            vn.no_duplicates(),
            vn.len() == names@.len(),
            i <= names@.len(),
            forall|j: int| 0 <= j < i ==> vn[j] != name@,
        decreases names@.len() - i,
    {
        if same_name(&names[i], name) {
            proof {
                assert(vn[i as int] == name@);
                assert(vn.contains(name@));
                let k = vn.index_of(name@);
                assert(vn[k] == name@);
            }
            return Some(i);
        }
        i = i + 1;
    }
    proof {
        if vn.contains(name@) {
            let k = choose|k: int| 0 <= k < vn.len() && vn[k] == name@;
        }
    }
    None
}

/// The candidate names of a header line, trimmed, the empty ones left out.
pub fn read_header(line: &Vec<char>) -> (r: Vec<Vec<char>>)
    ensures
        views(r@) == header_names(split(line@, ';')),
{
    let pieces = split_chars(line, ';');
    let ghost p = views(pieces@);
    let mut r: Vec<Vec<char>> = Vec::new();
    let mut i: usize = 0;
    proof {
        assert(p.take(0) =~= Seq::<Seq<char>>::empty());
        assert(views(r@) =~= header_names(p.take(0)));
    }
    while i < pieces.len()
        invariant
            p == views(pieces@),
            p == split(line@, ';'),
            i <= pieces@.len(),
            views(r@) == header_names(p.take(i as int)),
        decreases pieces@.len() - i,
    {
        let t = trim_chars(&pieces[i]);
        proof {
            assert(p.take(i + 1).drop_last() =~= p.take(i as int));
            assert(p.take(i + 1).last() == pieces@[i as int]@);
        }
        if t.len() > 0 {
            r.push(t);
            proof {
                assert(views(r@) =~= header_names(p.take(i + 1)));
            }
        }
        i = i + 1;
    }
    proof {
        assert(p.take(p.len() as int) =~= p);
    }
    r
}

/// The string made of the given characters, in order, built by std's
/// `String::from_iter` over them. Trusted, not proved: the claim is that the string's
/// characters are exactly `v`'s, which is what collecting `char`s into a `String` does.
#[verifier::external_body]
fn string_of(v: &Vec<char>) -> (r: String)
    ensures
        r@ == v@,
{
    String::from_iter(v.iter())
}


/// Text without a separator is a single piece.
pub proof fn lemma_split_single(s: Seq<char>, sep: char)
    requires
        !s.contains(sep),
    ensures
        split(s, sep) == seq![s],
    decreases s.len(),
{
    if s.len() > 0 {
        assert(!s.drop_last().contains(sep)) by {
            if s.drop_last().contains(sep) {
                let k = choose|k: int| 0 <= k < s.drop_last().len() && s.drop_last()[k] == sep;
                assert(s[k] == sep);
            }
        }
        lemma_split_single(s.drop_last(), sep);
        assert(s.last() != sep) by {
            assert(s[s.len() - 1] == s.last());
        }
        assert(s.drop_last().push(s.last()) =~= s);
        let rest = split(s.drop_last(), sep);
        assert(rest =~= seq![s.drop_last()]);
        assert(split(s, sep) == rest.update(rest.len() - 1, rest.last().push(s.last())));
        assert(rest.len() == 1);
        assert(rest.last() == s.drop_last());
        assert(rest.last().push(s.last()) == s);
        assert(rest.update(0, s) =~= seq![s]);
        assert(split(s, sep) == rest.update(0, rest.last().push(s.last())));
        assert(split(s, sep) == rest.update(0, s));
    } else {
        assert(s =~= Seq::<char>::empty());
        assert(split(s, sep) =~= seq![s]);
    }
}

/// The pieces of `a`, a separator, then `b`, when `a` holds no separator: `a`, then the
/// pieces of `b`.
pub proof fn lemma_split_front(a: Seq<char>, b: Seq<char>, sep: char)
    requires
        !a.contains(sep),
    ensures
        split(a.push(sep) + b, sep) == seq![a] + split(b, sep),
    decreases b.len(),
{
    let s = a.push(sep) + b;
    lemma_split_single(a, sep);
    if b.len() == 0 {
        assert(s =~= a.push(sep));
        assert(s.drop_last() =~= a);
        assert(split(s, sep) =~= seq![a] + split(b, sep));
    } else {
        lemma_split_front(a, b.drop_last(), sep);
        assert(s.drop_last() =~= a.push(sep) + b.drop_last());
        assert(s.last() == b.last());
        let rb = split(b.drop_last(), sep);
        lemma_split_len(b.drop_last(), sep);
        let rest = split(s.drop_last(), sep);
        assert(rest == seq![a] + rb);
        if b.last() == sep {
            assert(split(s, sep) == rest.push(Seq::empty()));
            assert(split(b, sep) == rb.push(Seq::empty()));
            assert(split(s, sep) =~= seq![a] + split(b, sep));
        } else {
            assert(split(s, sep) == rest.update(rest.len() - 1, rest.last().push(s.last())));
            assert(split(b, sep) == rb.update(rb.len() - 1, rb.last().push(b.last())));
            assert(rest.last() == rb.last());
            assert(split(s, sep) =~= seq![a] + split(b, sep));
        }
    }
}

/// The lines of a non-empty text with a newline at `k` (the first one): the text before
/// it, then the lines of the text after it.
pub proof fn lemma_lines_front(s: Seq<char>, k: int)
    requires
        0 <= k < s.len(),
        s[k] == '\n',
        forall|i: int| 0 <= i < k ==> s[i] != '\n',
    ensures
        lines(s) == seq![s.take(k)] + lines(s.skip(k + 1)),
{
    let a = s.take(k);
    let b = s.skip(k + 1);
    assert(!a.contains('\n')) by {
        if a.contains('\n') {
            let j = choose|j: int| 0 <= j < a.len() && a[j] == '\n';
            assert(s[j] == '\n');
        }
    }
    assert(s =~= a.push('\n') + b);
    lemma_split_front(a, b, '\n');
    if b.len() == 0 {
        assert(lines(s) =~= seq![a]);
        assert(lines(b) =~= Seq::<Seq<char>>::empty());
        assert(lines(s) =~= seq![a] + lines(b));
    } else {
        assert(s.last() == b.last());
        assert(split(b, '\n').len() >= 1) by {
            lemma_split_len(b, '\n');
        }
        if b.last() == '\n' {
            assert((seq![a] + split(b, '\n')).drop_last() =~= seq![a] + split(b, '\n').drop_last());
        }
        assert(lines(s) =~= seq![a] + lines(b));
    }
}

/// Splitting gives at least one piece.
pub proof fn lemma_split_len(s: Seq<char>, sep: char)
    ensures
        split(s, sep).len() >= 1,
    decreases s.len(),
{
    if s.len() > 0 {
        lemma_split_len(s.drop_last(), sep);
    }
}

/// A non-empty text without a newline is one line.
pub proof fn lemma_lines_single(s: Seq<char>)
    requires
        s.len() > 0,
        !s.contains('\n'),
    ensures
        lines(s) == seq![s],
{
    lemma_split_single(s, '\n');
    assert(s[s.len() - 1] == s.last());
}

/// The line of `s` that starts at `start`, and where the next line starts.
pub fn next_line(s: &Vec<char>, start: usize) -> (r: (Vec<char>, usize))
    requires
        start < s@.len(),
    ensures
        start < r.1 <= s@.len(),
        lines(s@.skip(start as int)) == seq![r.0@] + lines(s@.skip(r.1 as int)),
{
    let mut i: usize = start;
    let mut line: Vec<char> = Vec::new();
    while i < s.len() && s[i] != '\n'
        invariant
            start <= i <= s@.len(),
            line@ == s@.subrange(start as int, i as int),
            forall|j: int| start <= j < i ==> s@[j] != '\n',
        decreases s@.len() - i,
    {
        line.push(s[i]);
        proof {
            assert(line@ =~= s@.subrange(start as int, i + 1));
        }
        i = i + 1;
    }
    let ghost t = s@.skip(start as int);
    if i < s.len() {
        proof {
            lemma_lines_front(t, i - start);
            assert(t.take(i - start) =~= line@);
            assert(t.skip(i - start + 1) =~= s@.skip(i + 1));
        }
        (line, i + 1)
    } else {
        proof {
            assert(!t.contains('\n')) by {
                if t.contains('\n') {
                    let j = choose|j: int| 0 <= j < t.len() && t[j] == '\n';
                    assert(s@[start + j] == '\n');
                }
            }
            lemma_lines_single(t);
            assert(t =~= line@);
            assert(s@.skip(s@.len() as int) =~= Seq::<char>::empty());
            assert(lines(s@.skip(s@.len() as int)) =~= Seq::<Seq<char>>::empty());
        }
        (line, i)
    }
}

/// Whether `v` holds `x`.
pub fn holds(v: &Vec<usize>, x: usize) -> (r: bool)
    ensures
        r == v@.contains(x),
{
    let mut i: usize = 0;
    while i < v.len()
        invariant
            i <= v@.len(),
            forall|j: int| 0 <= j < i ==> v@[j] != x,
        decreases v@.len() - i,
    {
        if v[i] == x {
            return true;
        }
        i = i + 1;
    }
    false
}

/// The ballot read from the `>`-separated pieces of a non-blank line.
pub fn read_ballot(names: &Vec<Vec<char>>, line: &Vec<char>) -> (r: Result<Vec<usize>, ParseError>)
    requires
        views(names@).no_duplicates(),
    ensures
        match r {
            Ok(b) => parse_ballot(views(names@), line@) == Ok::<Seq<usize>, ParseFailure>(b@)
                && crate::types::valid_ballot(b@, names@.len()),
            Err(err) => parse_ballot(views(names@), line@) == Err::<Seq<usize>, ParseFailure>(err@),
        },
{
    let ghost nm = views(names@);
    let t = trim_chars(line);
    let parts = split_chars(&t, '>');
    let ghost p = views(parts@);
    let mut acc: Vec<usize> = Vec::new();
    let mut i: usize = 0;
    proof {
        assert(p.skip(0) =~= p);
    }
    while i < parts.len()
        invariant
            nm == views(names@),
            nm.no_duplicates(),
            nm.len() == names@.len(),
            p == views(parts@),
            p == split(trim(line@), '>'),
            i <= parts@.len(),
            parse_parts(nm, p, Seq::empty()) == parse_parts(nm, p.skip(i as int), acc@),
            forall|j: int| 0 <= j < acc@.len() ==> #[trigger] acc@[j] < names@.len(),
            acc@.no_duplicates(),
        decreases parts@.len() - i,
    {
        let name = trim_chars(&parts[i]);
        proof {
            assert(p.skip(i as int)[0] == parts@[i as int]@);
            assert(p.skip(i as int).drop_first() =~= p.skip(i + 1));
        }
        if name.len() == 0 {
            return Err(ParseError::InvalidBallotSyntax);
        }
        match find_name(names, &name) {
            Some(id) => {
                if holds(&acc, id) {
                    return Err(ParseError::RepeatedInBallot);
                }
                acc.push(id);
            },
            None => {
                let s = string_of(&name);
                return Err(ParseError::UnknownCandidate(s));
            },
        }
        i = i + 1;
    }
    if acc.len() == 0 {
        return Err(ParseError::EmptyBallot);
    }
    Ok(acc)
}

/// An `Election` from a text: the first line holds the candidate names separated by `;`,
/// each further non-blank line is a ballot naming candidates from best to worst,
/// separated by `>`. Names are trimmed of white space. The text is refused, with the
/// first fault found, when it has no line, the first line names no candidate or one
/// twice, a ballot has an empty name, a name not in the first line or the same candidate
/// twice, or there is no ballot.
pub fn parse_text(text: &str) -> (r: Result<crate::types::Election, ParseError>)
    ensures
        match r {
            Ok(e) => parse_spec(text@) == Ok::<(Seq<Seq<char>>, Seq<Seq<usize>>), ParseFailure>((e.names(), e.votes())) && e.wf(),
            Err(err) => parse_spec(text@) == Err::<(Seq<Seq<char>>, Seq<Seq<usize>>), ParseFailure>(err@),
        },
{
    let chars = text_chars(text);
    if chars.len() == 0 {
        return Err(ParseError::EmptyFile);
    }
    let (header, mut start) = next_line(&chars, 0);
    let ghost l = lines(text@);
    proof {
        assert(chars@.skip(0) =~= chars@);
        assert(l == seq![header@] + lines(chars@.skip(start as int)));
        assert(l[0] == header@);
        assert(l.drop_first() =~= lines(chars@.skip(start as int)));
    }
    let names = read_header(&header);
    let ghost nm = views(names@);
    if names.len() == 0 {
        return Err(ParseError::NoCandidates);
    }
    let mut i: usize = 0;
    while i < names.len()
        invariant
            l == lines(text@),
            l.len() > 0,
            nm == header_names(split(l[0], ';')),
            nm.len() > 0,
            nm == views(names@),
            nm.len() == names@.len(),
            i <= names@.len(),
            forall|a: int, b: int| 0 <= a < b < i ==> nm[a] != nm[b],
        decreases names@.len() - i,
    {
        let mut j: usize = 0;
        while j < i
            invariant
                l == lines(text@),
                l.len() > 0,
                nm == header_names(split(l[0], ';')),
                nm.len() > 0,
                nm == views(names@),
                nm.len() == names@.len(),
                i < names@.len(),
                j <= i,
                forall|b: int| 0 <= b < j ==> nm[b] != nm[i as int],
            decreases i - j,
        {
            if same_name(&names[j], &names[i]) {
                proof {
                    assert(nm[j as int] == nm[i as int]);
                    assert(!nm.no_duplicates());
                }
                return Err(ParseError::DuplicateCandidate);
            }
            j = j + 1;
        }
        i = i + 1;
    }
    assert(nm.no_duplicates());
    let mut candidates: Vec<String> = Vec::new();
    let mut k: usize = 0;
    while k < names.len()
        invariant
            nm == views(names@),
            nm.len() == names@.len(),
            k <= names@.len(),
            candidates@.len() == k,
            forall|a: int| 0 <= a < k ==> #[trigger] candidates@[a]@ == nm[a],
        decreases names@.len() - k,
    {
        let s = string_of(&names[k]);
        candidates.push(s);
        k = k + 1;
    }
    let mut ballots: Vec<crate::types::Ballot> = Vec::new();
    proof {
        assert(ballots@.map_values(|b: crate::types::Ballot| b.ranking@) =~= Seq::<Seq<usize>>::empty());
    }
    while start < chars.len()
        invariant
            l == lines(text@),
            l.len() > 0,
            nm == header_names(split(l[0], ';')),
            nm.len() > 0,
            candidates@.len() == nm.len(),
            forall|a: int| 0 <= a < nm.len() ==> #[trigger] candidates@[a]@ == nm[a],
            nm == views(names@),
            nm.no_duplicates(),
            nm.len() == names@.len(),
            start <= chars@.len(),
            parse_lines(nm, l.drop_first(), Seq::empty()) == parse_lines(
                nm,
                lines(chars@.skip(start as int)),
                ballots@.map_values(|b: crate::types::Ballot| b.ranking@),
            ),
            forall|a: int| 0 <= a < ballots@.len() ==> crate::types::valid_ballot(#[trigger] ballots@[a].ranking@, names@.len()),
        decreases chars@.len() - start,
    {
        let ghost acc = ballots@.map_values(|b: crate::types::Ballot| b.ranking@);
        let (line, next) = next_line(&chars, start);
        proof {
            let rest = lines(chars@.skip(start as int));
            assert(rest[0] == line@);
            assert(rest.drop_first() =~= lines(chars@.skip(next as int)));
        }
        let t = trim_chars(&line);
        if t.len() > 0 {
            match read_ballot(&names, &line) {
                Ok(b) => {
                    ballots.push(crate::types::Ballot { ranking: b });
                    proof {
                        assert(ballots@.map_values(|b: crate::types::Ballot| b.ranking@) =~= acc.push(ballots@[ballots@.len() - 1].ranking@));
                    }
                },
                Err(err) => {
                    return Err(err);
                },
            }
        }
        start = next;
    }
    proof {
        assert(chars@.skip(start as int) =~= Seq::<char>::empty());
        assert(lines(chars@.skip(start as int)) =~= Seq::<Seq<char>>::empty());
    }
    if ballots.len() == 0 {
        return Err(ParseError::NoBallots);
    }
    let nc = candidates.len();
    let nbal = ballots.len();
    let e = crate::types::Election { candidates, ballots };
    proof {
        assert(e.n() == nc);
        assert(e.ballots@.len() == nbal);
        assert(e.names() =~= nm);
        assert forall|a: int| 0 <= a < e.ballots@.len() implies crate::types::valid_ballot(#[trigger] e.votes()[a], e.n()) by {
            assert(e.votes()[a] == e.ballots@[a].ranking@);
        }
    }
    Ok(e)
}

/// The pieces joined with `sep` between each two of them.
pub open spec fn join(p: Seq<Seq<char>>, sep: char) -> Seq<char>
    decreases p.len(),
{
    if p.len() == 0 {
        Seq::empty()
    } else if p.len() == 1 {
        p[0]
    } else {
        join(p.drop_last(), sep).push(sep) + p.last()
    }
}

/// The lines, each followed by a newline.
pub open spec fn unlines(ls: Seq<Seq<char>>) -> Seq<char>
    decreases ls.len(),
{
    if ls.len() == 0 {
        Seq::empty()
    } else {
        ls[0].push('\n') + unlines(ls.drop_first())
    }
}

/// The line of a ballot: the names of its candidates, best first, joined by `>`.
pub open spec fn ballot_text(names: Seq<Seq<char>>, b: Seq<usize>) -> Seq<char> {
    join(b.map_values(|c: usize| names[c as int]), '>')
}

/// The text of an election: the names joined by `;` on the first line, then one line
/// per ballot.
pub open spec fn election_text(names: Seq<Seq<char>>, ballots: Seq<Seq<usize>>) -> Seq<char> {
    unlines(seq![join(names, ';')] + ballots.map_values(|b: Seq<usize>| ballot_text(names, b)))
}

/// A name that an election text can hold: not empty, without white space at either end,
/// and without `;`, `>` or a line break.
pub open spec fn writable_name(s: Seq<char>) -> bool {
    &&& s.len() > 0
    &&& !is_space(s[0])
    &&& !is_space(s.last())
    &&& !s.contains(';')
    &&& !s.contains('>')
    &&& !s.contains('\n')
}

/// Text that ends in a separator and then a piece without one: the pieces of what comes
/// before the separator, then that piece.
pub proof fn lemma_split_back(a: Seq<char>, b: Seq<char>, sep: char)
    requires
        !b.contains(sep),
    ensures
        split(a.push(sep) + b, sep) == split(a, sep).push(b),
    decreases b.len(),
{
    let s = a.push(sep) + b;
    if b.len() == 0 {
        assert(s =~= a.push(sep));
        assert(s.drop_last() =~= a);
        assert(b =~= Seq::<char>::empty());
    } else {
        assert(!b.drop_last().contains(sep)) by {
            if b.drop_last().contains(sep) {
                let k = choose|k: int| 0 <= k < b.drop_last().len() && b.drop_last()[k] == sep;
                assert(b[k] == sep);
            }
        }
        lemma_split_back(a, b.drop_last(), sep);
        assert(s.drop_last() =~= a.push(sep) + b.drop_last());
        assert(s.last() == b.last());
        assert(b.last() != sep) by {
            assert(b[b.len() - 1] == b.last());
        }
        let rest = split(a, sep).push(b.drop_last());
        assert(b.drop_last().push(b.last()) =~= b);
        assert(split(s, sep) =~= rest.update(rest.len() - 1, rest.last().push(s.last())));
        assert(rest.update(rest.len() - 1, rest.last().push(s.last())) =~= split(a, sep).push(b));
    }
}

/// Splitting pieces joined by a separator none of them holds gives the pieces back.
pub proof fn lemma_split_join(p: Seq<Seq<char>>, sep: char)
    requires
        p.len() >= 1,
        forall|i: int| 0 <= i < p.len() ==> !(#[trigger] p[i]).contains(sep),
    ensures
        split(join(p, sep), sep) == p,
    decreases p.len(),
{
    if p.len() == 1 {
        lemma_split_single(p[0], sep);
        assert(p =~= seq![p[0]]);
    } else {
        let q = p.drop_last();
        assert forall|i: int| 0 <= i < q.len() implies !(#[trigger] q[i]).contains(sep) by {
            assert(q[i] == p[i]);
        }
        lemma_split_join(q, sep);
        assert(!p[p.len() - 1].contains(sep));
        lemma_split_back(join(q, sep), p.last(), sep);
        assert(q.push(p.last()) =~= p);
    }
}

/// Pieces without `c`, joined by a separator other than `c`, hold no `c`.
pub proof fn lemma_join_lacks(p: Seq<Seq<char>>, sep: char, c: char)
    requires
        sep != c,
        forall|i: int| 0 <= i < p.len() ==> !(#[trigger] p[i]).contains(c),
    ensures
        !join(p, sep).contains(c),
    decreases p.len(),
{
    if p.len() == 1 {
        assert(!p[0].contains(c));
    } else if p.len() > 1 {
        let q = p.drop_last();
        assert forall|i: int| 0 <= i < q.len() implies !(#[trigger] q[i]).contains(c) by {
            assert(q[i] == p[i]);
        }
        lemma_join_lacks(q, sep, c);
        let j = join(q, sep);
        let l = p.last();
        assert(!p[p.len() - 1].contains(c));
        if join(p, sep).contains(c) {
            let k = choose|k: int| 0 <= k < join(p, sep).len() && join(p, sep)[k] == c;
            if k < j.len() {
                assert(j[k] == c);
            } else if k > j.len() {
                assert(l[k - j.len() - 1] == c);
            }
        }
    }
}

/// Joined non-empty pieces start with the first piece's first character and end with the
/// last piece's last character.
pub proof fn lemma_join_ends(p: Seq<Seq<char>>, sep: char)
    requires
        p.len() >= 1,
        forall|i: int| 0 <= i < p.len() ==> (#[trigger] p[i]).len() > 0,
    ensures
        join(p, sep).len() > 0,
        join(p, sep)[0] == p[0][0],
        join(p, sep).last() == p.last().last(),
    decreases p.len(),
{
    if p.len() > 1 {
        let q = p.drop_last();
        assert forall|i: int| 0 <= i < q.len() implies (#[trigger] q[i]).len() > 0 by {
            assert(q[i] == p[i]);
        }
        lemma_join_ends(q, sep);
        assert(p[p.len() - 1].len() > 0);
    }
}

/// A text without white space at either end is its own trimmed form.
pub proof fn lemma_trim_same(s: Seq<char>)
    requires
        s.len() > 0,
        !is_space(s[0]),
        !is_space(s.last()),
    ensures
        trim(s) == s,
{
    assert(trim_start(s) == s);
    assert(trim_end(s) == s);
}

/// The lines of lines written each with a newline are those lines.
pub proof fn lemma_lines_unlines(ls: Seq<Seq<char>>)
    requires
        forall|i: int| 0 <= i < ls.len() ==> !(#[trigger] ls[i]).contains('\n'),
    ensures
        lines(unlines(ls)) == ls,
    decreases ls.len(),
{
    if ls.len() > 0 {
        let t = ls.drop_first();
        assert forall|i: int| 0 <= i < t.len() implies !(#[trigger] t[i]).contains('\n') by {
            assert(t[i] == ls[i + 1]);
        }
        lemma_lines_unlines(t);
        let a = ls[0];
        let s = unlines(ls);
        assert(!a.contains('\n'));
        let k = a.len() as int;
        assert(s == a.push('\n') + unlines(t));
        assert(s[k] == '\n');
        assert forall|i: int| 0 <= i < k implies s[i] != '\n' by {
            assert(s[i] == a[i]);
        }
        lemma_lines_front(s, k);
        assert(s.take(k) =~= a);
        assert(s.skip(k + 1) =~= unlines(t));
        assert(seq![a] + t =~= ls);
    }
}

/// The header names of writable names are those names.
pub proof fn lemma_header_names_same(p: Seq<Seq<char>>)
    requires
        forall|i: int| 0 <= i < p.len() ==> writable_name(#[trigger] p[i]),
    ensures
        header_names(p) == p,
    decreases p.len(),
{
    if p.len() == 0 {
        assert(header_names(p) =~= p);
    } else {
        let q = p.drop_last();
        assert forall|i: int| 0 <= i < q.len() implies writable_name(#[trigger] q[i]) by {
            assert(q[i] == p[i]);
        }
        lemma_header_names_same(q);
        assert(writable_name(p[p.len() - 1]));
        lemma_trim_same(p.last());
        assert(q.push(p.last()) =~= p);
    }
}

/// Among distinct names, the position of the name at `k` is `k`.
pub proof fn lemma_name_index(names: Seq<Seq<char>>, k: int)
    requires
        names.no_duplicates(),
        0 <= k < names.len(),
    ensures
        names.contains(names[k]),
        names.index_of(names[k]) == k,
{
    assert(names.contains(names[k]));
    let i = names.index_of(names[k]);
    assert(0 <= i < names.len() && names[i] == names[k]);
}

/// Reading the names of a ballot's candidates, after its first `i` candidates, gives the
/// ballot back.
pub proof fn lemma_parse_parts_names(names: Seq<Seq<char>>, b: Seq<usize>, i: int)
    requires
        names.no_duplicates(),
        forall|k: int| 0 <= k < names.len() ==> writable_name(#[trigger] names[k]),
        crate::types::names_known(b, names.len()),
        0 <= i <= b.len(),
    ensures
        parse_parts(names, b.map_values(|c: usize| names[c as int]).skip(i), b.take(i)) == Ok::<Seq<usize>, ParseFailure>(b),
    decreases b.len() - i,
{
    let m = b.map_values(|c: usize| names[c as int]);
    if i == b.len() {
        assert(m.skip(i).len() == 0);
        assert(b.take(i) =~= b);
    } else {
        let c = b[i];
        assert(c < names.len());
        let name = m.skip(i)[0];
        assert(name == names[c as int]);
        assert(writable_name(names[c as int]));
        lemma_trim_same(name);
        lemma_name_index(names, c as int);
        assert(!b.take(i).contains(c)) by {
            if b.take(i).contains(c) {
                let j = choose|j: int| 0 <= j < b.take(i).len() && b.take(i)[j] == c;
                assert(b[j] == b[i]);
            }
        }
        lemma_parse_parts_names(names, b, i + 1);
        assert(m.skip(i).drop_first() =~= m.skip(i + 1));
        assert(b.take(i).push(c) =~= b.take(i + 1));
    }
}

/// Reading the ballot lines, after the first `k` of them, gives the ballots back.
pub proof fn lemma_parse_lines_ballots(names: Seq<Seq<char>>, ballots: Seq<Seq<usize>>, k: int)
    requires
        names.no_duplicates(),
        forall|j: int| 0 <= j < names.len() ==> writable_name(#[trigger] names[j]),
        forall|j: int| 0 <= j < ballots.len() ==> crate::types::valid_ballot(#[trigger] ballots[j], names.len()),
        0 <= k <= ballots.len(),
    ensures
        parse_lines(names, ballots.map_values(|b: Seq<usize>| ballot_text(names, b)).skip(k), ballots.take(k))
            == Ok::<Seq<Seq<usize>>, ParseFailure>(ballots),
    decreases ballots.len() - k,
{
    let texts = ballots.map_values(|b: Seq<usize>| ballot_text(names, b));
    if k == ballots.len() {
        assert(texts.skip(k).len() == 0);
        assert(ballots.take(k) =~= ballots);
    } else {
        let b = ballots[k];
        assert(crate::types::valid_ballot(b, names.len()));
        let m = b.map_values(|c: usize| names[c as int]);
        assert forall|i: int| 0 <= i < m.len() implies (#[trigger] m[i]).len() > 0 && !m[i].contains('>') by {
            assert(b[i] < names.len());
            assert(writable_name(names[b[i] as int]));
        }
        lemma_join_ends(m, '>');
        let line = texts.skip(k)[0];
        assert(line == join(m, '>'));
        assert(writable_name(names[b[0] as int]));
        assert(writable_name(names[b[b.len() - 1] as int]));
        assert(m.last() == names[b[b.len() - 1] as int]);
        lemma_trim_same(line);
        lemma_split_join(m, '>');
        lemma_parse_parts_names(names, b, 0);
        assert(m.skip(0) =~= m);
        assert(b.take(0) =~= Seq::<usize>::empty());
        assert(parse_ballot(names, line) == Ok::<Seq<usize>, ParseFailure>(b));
        lemma_parse_lines_ballots(names, ballots, k + 1);
        assert(texts.skip(k).drop_first() =~= texts.skip(k + 1));
        assert(ballots.take(k).push(b) =~= ballots.take(k + 1));
    }
}

/// Reading the text of an election gives the election back: for distinct writable names
/// and at least one ballot, each valid, parsing `election_text(names, ballots)` yields
/// exactly those names and ballots.
pub proof fn lemma_parse_election_text(names: Seq<Seq<char>>, ballots: Seq<Seq<usize>>)
    requires
        names.len() > 0,
        names.no_duplicates(),
        forall|j: int| 0 <= j < names.len() ==> writable_name(#[trigger] names[j]),
        ballots.len() > 0,
        forall|j: int| 0 <= j < ballots.len() ==> crate::types::valid_ballot(#[trigger] ballots[j], names.len()),
    ensures
        parse_spec(election_text(names, ballots)) == Ok::<(Seq<Seq<char>>, Seq<Seq<usize>>), ParseFailure>((names, ballots)),
{
    let texts = ballots.map_values(|b: Seq<usize>| ballot_text(names, b));
    let header = join(names, ';');
    let ls = seq![header] + texts;
    assert forall|j: int| 0 <= j < names.len() implies !(#[trigger] names[j]).contains('\n') && !names[j].contains(';') by {
        assert(writable_name(names[j]));
    }
    lemma_join_lacks(names, ';', '\n');
    assert forall|j: int| 0 <= j < texts.len() implies !(#[trigger] texts[j]).contains('\n') by {
        let b = ballots[j];
        assert(crate::types::valid_ballot(b, names.len()));
        let m = b.map_values(|c: usize| names[c as int]);
        assert forall|i: int| 0 <= i < m.len() implies !(#[trigger] m[i]).contains('\n') by {
            assert(b[i] < names.len());
            assert(writable_name(names[b[i] as int]));
        }
        lemma_join_lacks(m, '>', '\n');
    }
    assert forall|j: int| 0 <= j < ls.len() implies !(#[trigger] ls[j]).contains('\n') by {
        if j > 0 {
            assert(ls[j] == texts[j - 1]);
        }
    }
    lemma_lines_unlines(ls);
    lemma_split_join(names, ';');
    lemma_header_names_same(names);
    assert(ls.drop_first() =~= texts);
    lemma_parse_lines_ballots(names, ballots, 0);
    assert(texts.skip(0) =~= texts);
    assert(ballots.take(0) =~= Seq::<Seq<usize>>::empty());
}

} // verus!

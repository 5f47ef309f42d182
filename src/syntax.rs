//! The command line of a client: words split on spaces, with double quotes grouping
//! words that hold spaces.
use vstd::prelude::*;
use crate::text::{chars_of, push_char};
use crate::value::strings_view;

verus! {

/// A command line: the command's name and its arguments.
#[derive(Debug, PartialEq)]
pub struct Input {
    pub command: String,
    pub arguments: Vec<String>,
}

/// The state of the scan after some characters: the words closed so far, the word
/// being read, and whether a quote is open.
pub open spec fn scan(s: Seq<char>) -> (Seq<Seq<char>>, Seq<char>, bool)
    decreases s.len(),
{
    if s.len() == 0 {
        (Seq::<Seq<char>>::empty(), Seq::<char>::empty(), false)
    } else {
        let (words, cur, quoted) = scan(s.drop_last());
        let c = s.last();
        if c == ' ' && !quoted {
            (words.push(cur), Seq::<char>::empty(), quoted)
        } else if c == '"' {
            (words, cur, !quoted)
        } else {
            (words, cur.push(c), quoted)
        }
    }
}

/// The words of a command line: a space outside quotes closes a word (two spaces
/// enclose an empty word), a `"` opens or closes a quote and is dropped, and the word
/// being read at the end counts unless it is empty. A quote left open closes at the end.
pub open spec fn segments_of(s: Seq<char>) -> Seq<Seq<char>> {
    let (words, cur, _) = scan(s);
    if cur.len() > 0 {
        words.push(cur)
    } else {
        words
    }
}

/// Splits a command line into its words.
pub fn parse_string_to_segments(user_input: String) -> (r: Vec<String>)
    ensures
        strings_view(r@) == segments_of(user_input@),
{
    let c = chars_of(user_input.as_str());
    let mut quote_status = false;
    let mut word = String::new();
    let mut segments: Vec<String> = Vec::new();
    let mut i: usize = 0;
    while i < c.len()
        invariant
            0 <= i <= c.len(),
            c@ == user_input@,
            (strings_view(segments@), word@, quote_status) == scan(c@.subrange(0, i as int)),
        decreases c.len() - i,
    {
        let ch = c[i];
        proof {
            let p = c@.subrange(0, i + 1);
            assert(p.drop_last() =~= c@.subrange(0, i as int));
            assert(p.last() == ch);
        }
        if ch == ' ' && !quote_status {
            let done = word;
            segments.push(done);
            word = String::new();
            assert(strings_view(segments@) =~= scan(c@.subrange(0, i as int)).0.push(done@));
        } else if ch == '"' {
            quote_status = !quote_status;
        } else {
            push_char(&mut word, ch);
        }
        i = i + 1;
    }
    assert(c@.subrange(0, c.len() as int) =~= user_input@);
    if !word.as_str().is_empty() {
        let ghost before = strings_view(segments@);
        let last = word;
        segments.push(last);
        assert(strings_view(segments@) =~= before.push(last@));
    }
    segments
}

impl Input {
    /// The first word is the command and the rest are its arguments; no words give an
    /// empty command without arguments.
    pub fn new(segments: Vec<String>) -> (r: Input)
        ensures
            segments.len() == 0 ==> r.command@.len() == 0 && r.arguments.len() == 0,
            segments.len() > 0 ==> r.command@ == segments@[0]@ && strings_view(r.arguments@)
                == strings_view(segments@).drop_first(),
    {
        let mut command = String::new();
        let mut arguments: Vec<String> = Vec::new();
        let mut i: usize = 0;
        while i < segments.len()
            invariant
                0 <= i <= segments.len(),
                i == 0 ==> command@.len() == 0,
                i > 0 ==> command@ == segments@[0]@,
                arguments.len() == if i == 0 {
                    0
                } else {
                    i - 1
                },
                forall|j: int| 0 <= j < arguments.len() ==> #[trigger] arguments@[j]@ == segments@[j
                    + 1]@,
            decreases segments.len() - i,
        {
            if i == 0 {
                command = segments[0].clone();
            } else {
                arguments.push(segments[i].clone());
            }
            i = i + 1;
        }
        assert(segments.len() > 0 ==> strings_view(arguments@) =~= strings_view(segments@).drop_first());
        Input { command, arguments }
    }

    /// Reads a command line.
    pub fn from_string(unparsed: String) -> (r: Input)
        ensures
            segments_of(unparsed@).len() == 0 ==> r.command@.len() == 0 && r.arguments.len() == 0,
            segments_of(unparsed@).len() > 0 ==> r.command@ == segments_of(unparsed@)[0]
                && strings_view(r.arguments@) == segments_of(unparsed@).drop_first(),
    {
        let parsed = parse_string_to_segments(unparsed);
        proof {
            if parsed.len() > 0 {
                assert(strings_view(parsed@)[0] == parsed@[0]@);
            }
        }
        Input::new(parsed)
    }
}

} // verus!

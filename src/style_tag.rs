use crate::error::Error;
use vstd::prelude::*;

verus! {

/// Kinds of document node that stylesheet rules select.
#[derive(Clone, Copy, Debug, PartialEq, Eq, Hash, PartialOrd, Ord, Structural)]
pub enum StyleTag {
    P,
    H1,
    H2,
    H3,
    H4,
    H5,
    H6,
    Blockquote,
    Code,
    Codeblock,
    Ul,
    Ol,
    Li,
    Em,
    Strong,
    Strikethrough,
    Hr,
    A,
    Img,
    ImgCaption,
}

/// The tag that a selector names by `s`.
pub open spec fn tag_of_name(s: Seq<char>) -> Option<StyleTag> {
    if s == seq!['p'] {
        Some(StyleTag::P)
    } else if s == seq!['h', '1'] {
        Some(StyleTag::H1)
    } else if s == seq!['h', '2'] {
        Some(StyleTag::H2)
    } else if s == seq!['h', '3'] {
        Some(StyleTag::H3)
    } else if s == seq!['h', '4'] {
        Some(StyleTag::H4)
    } else if s == seq!['h', '5'] {
        Some(StyleTag::H5)
    } else if s == seq!['h', '6'] {
        Some(StyleTag::H6)
    } else if s == seq!['b', 'l', 'o', 'c', 'k', 'q', 'u', 'o', 't', 'e'] {
        Some(StyleTag::Blockquote)
    } else if s == seq!['c', 'o', 'd', 'e'] {
        Some(StyleTag::Code)
    } else if s == seq!['c', 'o', 'd', 'e', 'b', 'l', 'o', 'c', 'k'] {
        Some(StyleTag::Codeblock)
    } else if s == seq!['u', 'l'] {
        Some(StyleTag::Ul)
    } else if s == seq!['o', 'l'] {
        Some(StyleTag::Ol)
    } else if s == seq!['l', 'i'] {
        Some(StyleTag::Li)
    } else if s == seq!['e', 'm'] {
        Some(StyleTag::Em)
    } else if s == seq!['s', 't', 'r', 'o', 'n', 'g'] {
        Some(StyleTag::Strong)
    } else if s == seq![
        's',
        't',
        'r',
        'i',
        'k',
        'e',
        't',
        'h',
        'r',
        'o',
        'u',
        'g',
        'h',
    ] {
        Some(StyleTag::Strikethrough)
    } else if s == seq!['h', 'r'] {
        Some(StyleTag::Hr)
    } else if s == seq!['a'] {
        Some(StyleTag::A)
    } else if s == seq!['i', 'm', 'g'] {
        Some(StyleTag::Img)
    } else if s == seq!['i', 'm', 'g', 'c', 'a', 'p', 't', 'i', 'o', 'n'] {
        Some(StyleTag::ImgCaption)
    } else {
        None
    }
}

/// Relies on `String`'s `FromIterator<char>`: the string of these characters.
#[verifier::external_body]
pub(crate) fn string_of_chars(chars: &Vec<char>) -> (r: String)
    ensures
        r@ == chars@,
{
    chars.iter().collect()
}

fn same_chars(word: &Vec<char>, name: &Vec<char>) -> (r: bool)
    ensures
        r == (word@ =~= name@),
{
    if word.len() != name.len() {
        return false;
    }
    let mut i: usize = 0;
    while i < word.len()
        invariant
            word@.len() == name@.len(),
            i <= word@.len(),
            forall|k: int| 0 <= k < i ==> word@[k] == name@[k],
        decreases word@.len() - i,
    {
        if word[i] != name[i] {
            return false;
        }
        i += 1;
    }
    assert(word@ == name@);
    true
}

impl StyleTag {
    /// The tag named `word`, or `InvalidRuleTag` carrying the word.
    #[verifier::rlimit(100)]
    pub fn from_name(word: &Vec<char>) -> (r: Result<StyleTag, Error>)
        ensures
            match tag_of_name(word@) {
                Some(t) => r == Ok::<StyleTag, Error>(t),
                None => r is Err && r->Err_0 is InvalidRuleTag && r->Err_0->InvalidRuleTag_0@
                    == word@,
            },
    {
        if same_chars(word, &vec!['p']) {
            assert(word@ == seq!['p']);
            Ok(StyleTag::P)
        } else if same_chars(word, &vec!['h', '1']) {
            assert(word@ == seq!['h', '1']);
            Ok(StyleTag::H1)
        } else if same_chars(word, &vec!['h', '2']) {
            assert(word@ == seq!['h', '2']);
            Ok(StyleTag::H2)
        } else if same_chars(word, &vec!['h', '3']) {
            assert(word@ == seq!['h', '3']);
            Ok(StyleTag::H3)
        } else if same_chars(word, &vec!['h', '4']) {
            assert(word@ == seq!['h', '4']);
            Ok(StyleTag::H4)
        } else if same_chars(word, &vec!['h', '5']) {
            assert(word@ == seq!['h', '5']);
            Ok(StyleTag::H5)
        } else if same_chars(word, &vec!['h', '6']) {
            assert(word@ == seq!['h', '6']);
            Ok(StyleTag::H6)
        } else if same_chars(word, &vec!['b', 'l', 'o', 'c', 'k', 'q', 'u', 'o', 't', 'e']) {
            assert(word@ == seq!['b', 'l', 'o', 'c', 'k', 'q', 'u', 'o', 't', 'e']);
            Ok(StyleTag::Blockquote)
        } else if same_chars(word, &vec!['c', 'o', 'd', 'e']) {
            assert(word@ == seq!['c', 'o', 'd', 'e']);
            Ok(StyleTag::Code)
        } else if same_chars(word, &vec!['c', 'o', 'd', 'e', 'b', 'l', 'o', 'c', 'k']) {
            assert(word@ == seq!['c', 'o', 'd', 'e', 'b', 'l', 'o', 'c', 'k']);
            Ok(StyleTag::Codeblock)
        } else if same_chars(word, &vec!['u', 'l']) {
            assert(word@ == seq!['u', 'l']);
            Ok(StyleTag::Ul)
        } else if same_chars(word, &vec!['o', 'l']) {
            assert(word@ == seq!['o', 'l']);
            Ok(StyleTag::Ol)
        } else if same_chars(word, &vec!['l', 'i']) {
            assert(word@ == seq!['l', 'i']);
            Ok(StyleTag::Li)
        } else if same_chars(word, &vec!['e', 'm']) {
            assert(word@ == seq!['e', 'm']);
            Ok(StyleTag::Em)
        } else if same_chars(word, &vec!['s', 't', 'r', 'o', 'n', 'g']) {
            assert(word@ == seq!['s', 't', 'r', 'o', 'n', 'g']);
            Ok(StyleTag::Strong)
        } else if same_chars(
            word,
            &vec!['s', 't', 'r', 'i', 'k', 'e', 't', 'h', 'r', 'o', 'u', 'g', 'h'],
        ) {
            assert(word@ == seq!['s', 't', 'r', 'i', 'k', 'e', 't', 'h', 'r', 'o', 'u', 'g', 'h']);
            Ok(StyleTag::Strikethrough)
        } else if same_chars(word, &vec!['h', 'r']) {
            assert(word@ == seq!['h', 'r']);
            Ok(StyleTag::Hr)
        } else if same_chars(word, &vec!['a']) {
            assert(word@ == seq!['a']);
            Ok(StyleTag::A)
        } else if same_chars(word, &vec!['i', 'm', 'g']) {
            assert(word@ == seq!['i', 'm', 'g']);
            Ok(StyleTag::Img)
        } else if same_chars(word, &vec!['i', 'm', 'g', 'c', 'a', 'p', 't', 'i', 'o', 'n']) {
            assert(word@ == seq!['i', 'm', 'g', 'c', 'a', 'p', 't', 'i', 'o', 'n']);
            Ok(StyleTag::ImgCaption)
        } else {
            assert(tag_of_name(word@) is None);
            let name = string_of_chars(word);
            assert(name@ == word@);
            Err(Error::InvalidRuleTag(name))
        }
    }

    /// Every tag, in declaration order.
    pub fn enumerate_all() -> (r: Vec<StyleTag>)
        ensures
            r@.len() == 20,
            forall|t: StyleTag| r@.contains(t),
    {
        let r = vec![
            StyleTag::P,
            StyleTag::H1,
            StyleTag::H2,
            StyleTag::H3,
            StyleTag::H4,
            StyleTag::H5,
            StyleTag::H6,
            StyleTag::Blockquote,
            StyleTag::Code,
            StyleTag::Codeblock,
            StyleTag::Ul,
            StyleTag::Ol,
            StyleTag::Li,
            StyleTag::Em,
            StyleTag::Strong,
            StyleTag::Strikethrough,
            StyleTag::Hr,
            StyleTag::A,
            StyleTag::Img,
            StyleTag::ImgCaption,
        ];
        assert forall|t: StyleTag| r@.contains(t) by {
            match t {
                StyleTag::P => assert(r@[0] == t),
                StyleTag::H1 => assert(r@[1] == t),
                StyleTag::H2 => assert(r@[2] == t),
                StyleTag::H3 => assert(r@[3] == t),
                StyleTag::H4 => assert(r@[4] == t),
                StyleTag::H5 => assert(r@[5] == t),
                StyleTag::H6 => assert(r@[6] == t),
                StyleTag::Blockquote => assert(r@[7] == t),
                StyleTag::Code => assert(r@[8] == t),
                StyleTag::Codeblock => assert(r@[9] == t),
                StyleTag::Ul => assert(r@[10] == t),
                StyleTag::Ol => assert(r@[11] == t),
                StyleTag::Li => assert(r@[12] == t),
                StyleTag::Em => assert(r@[13] == t),
                StyleTag::Strong => assert(r@[14] == t),
                StyleTag::Strikethrough => assert(r@[15] == t),
                StyleTag::Hr => assert(r@[16] == t),
                StyleTag::A => assert(r@[17] == t),
                StyleTag::Img => assert(r@[18] == t),
                StyleTag::ImgCaption => assert(r@[19] == t),
            }
        }
        r
    }
}

} // verus!

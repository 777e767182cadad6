use vstd::prelude::*;
use vstd::string::*;
use crate::lexer::is_digit;

verus! {

/// The text of a calculator display, edited one key at a time. An untouched
/// display reads `"0"`.
#[derive(Clone, Debug)]
pub struct Entry {
    pub text: Vec<char>,
}

impl View for Entry {
    type V = Seq<char>;

    open spec fn view(&self) -> Seq<char> {
        self.text@
    }
}

impl Entry {
    /// A display that reads `"0"`.
    pub fn new() -> (r: Entry)
        ensures
            r@ == seq!['0'],
    {
        Entry { text: vec!['0'] }
    }

    /// Appends a digit; a lone `"0"` is replaced rather than extended.
    pub fn input_digit(&mut self, d: char)
        requires
            is_digit(d),
        ensures
            old(self)@ == seq!['0'] ==> final(self)@ == seq![d],
            old(self)@ != seq!['0'] ==> final(self)@ == old(self)@.push(d),
    {
        if self.text.len() == 1 && self.text[0] == '0' {
            proof {
                assert(self@ =~= seq!['0']);
            }
            self.text.clear();
        } else {
            proof {
                assert(self@ != seq!['0']) by {
                    if self.text@.len() == 1 {
                        assert(self.text@[0] != '0');
                    }
                }
            }
        }
        self.text.push(d);
        proof {
            if old(self)@ == seq!['0'] {
                assert(self@ =~= seq![d]);
            }
        }
    }

    /// Appends an operator or a decimal point as it is.
    pub fn input_symbol(&mut self, c: char)
        ensures
            final(self)@ == old(self)@.push(c),
    {
        self.text.push(c);
    }

    /// Removes the last character, if there is one.
    pub fn backspace(&mut self)
        ensures
            final(self)@ == if old(self)@.len() == 0 { old(self)@ } else { old(self)@.drop_last() },
    {
        if self.text.len() > 0 {
            self.text.pop();
        }
    }

    /// Clears the display: a display with text goes back to `"0"`, an empty
    /// one stays empty.
    pub fn clear(&mut self)
        ensures
            old(self)@.len() == 0 ==> final(self)@.len() == 0,
            old(self)@.len() > 0 ==> final(self)@ == seq!['0'],
    {
        if self.text.len() > 0 {
            self.text = vec!['0'];
        }
    }

    /// Puts `s` on the display.
    pub fn set(&mut self, s: &str)
        ensures
            final(self)@ == s@,
    {
        let n = s.unicode_len();
        let mut v: Vec<char> = Vec::new();
        let mut i: usize = 0;
        while i < n
            invariant
                n == s@.len(),
                0 <= i <= n,
                v@ == s@.take(i as int),
            decreases n - i,
        {
            v.push(s.get_char(i));
            proof {
                assert(v@ =~= s@.take(i + 1));
            }
            i = i + 1;
        }
        proof {
            assert(v@ =~= s@);
        }
        self.text = v;
    }
}

} // verus!

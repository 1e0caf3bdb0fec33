//! File names, their extensions, and the color category of an extension.

use vstd::prelude::*;
use vstd::string::*;

use crate::text::chars_of;

verus! {

/// ANSI escape sequence: blue foreground, used for directories.
pub const BLUE: &'static str = "\x1b[34m";

/// ANSI escape sequence: green foreground, used for source code.
pub const GREEN: &'static str = "\x1b[32m";

/// ANSI escape sequence: yellow foreground, used for data files.
pub const YELLOW: &'static str = "\x1b[33m";

/// ANSI escape sequence: magenta foreground, used for images.
pub const MAGENTA: &'static str = "\x1b[35m";

/// ANSI escape sequence: back to the terminal's default color.
pub const RESET: &'static str = "\x1b[0m";

/// The color category of a file, decided by its extension alone.
#[derive(Clone, Copy, Debug, PartialEq, Eq, Structural)]
pub enum Category {
    Data,
    Code,
    Image,
    Default,
}

/// The lower-case form of an ASCII capital; every other character is itself.
pub open spec fn fold_char(c: char) -> char {
    if 'A' <= c && c <= 'Z' {
        ((c as u8) + 32) as char
    } else {
        c
    }
}

/// A text with every ASCII capital replaced by its lower-case form.
pub open spec fn fold(text: Seq<char>) -> Seq<char> {
    Seq::new(text.len(), |i: int| fold_char(text[i]))
}

/// The position of the final `.` in `name`, or -1 where it holds none.
pub open spec fn last_dot(name: Seq<char>) -> int
    decreases name.len(),
{
    if name.len() == 0 {
        -1
    } else if name.last() == '.' {
        name.len() - 1
    } else {
        last_dot(name.drop_last())
    }
}

/// The extension of a file name: the text after its final `.`, and the
/// empty text for a name without `.`.
pub open spec fn extension(name: Seq<char>) -> Seq<char> {
    let dot = last_dot(name);
    if dot < 0 {
        Seq::empty()
    } else {
        name.skip(dot + 1)
    }
}

/// The lower-case extensions of data files.
pub open spec fn is_data_ext(ext: Seq<char>) -> bool {
    ||| ext == "json"@
    ||| ext == "csv"@
    ||| ext == "dat"@
    ||| ext == "xml"@
    ||| ext == "yaml"@
    ||| ext == "yml"@
    ||| ext == "toml"@
}

/// The lower-case extensions of source code.
pub open spec fn is_code_ext(ext: Seq<char>) -> bool {
    ||| ext == "rs"@
    ||| ext == "py"@
    ||| ext == "r"@
    ||| ext == "js"@
    ||| ext == "ts"@
    ||| ext == "cpp"@
    ||| ext == "c"@
    ||| ext == "h"@
    ||| ext == "hpp"@
    ||| ext == "java"@
    ||| ext == "go"@
}

/// The lower-case extensions of images.
pub open spec fn is_image_ext(ext: Seq<char>) -> bool {
    ||| ext == "png"@
    ||| ext == "jpg"@
    ||| ext == "jpeg"@
    ||| ext == "gif"@
    ||| ext == "bmp"@
    ||| ext == "svg"@
}

/// The category of an extension, whatever its case.
pub open spec fn category_of_ext(ext: Seq<char>) -> Category {
    let folded = fold(ext);
    if is_data_ext(folded) {
        Category::Data
    } else if is_code_ext(folded) {
        Category::Code
    } else if is_image_ext(folded) {
        Category::Image
    } else {
        Category::Default
    }
}

/// The category of a file, by the extension of its name.
pub open spec fn category_of_name(name: Seq<char>) -> Category {
    category_of_ext(extension(name))
}

impl Category {
    /// The escape sequence that a file of this category is printed in.
    pub open spec fn color(self) -> Seq<char> {
        match self {
            Category::Data => YELLOW@,
            Category::Code => GREEN@,
            Category::Image => MAGENTA@,
            Category::Default => RESET@,
        }
    }

    /// The escape sequence that a file of this category is printed in.
    pub fn color_code(&self) -> (code: &'static str)
        ensures
            code@ == self.color(),
    {
        match self {
            Category::Data => YELLOW,
            Category::Code => GREEN,
            Category::Image => MAGENTA,
            Category::Default => RESET,
        }
    }
}

/// What `last_dot` finds is a `.`, and no `.` comes after it.
pub proof fn lemma_last_dot(name: Seq<char>)
    ensures
        -1 <= last_dot(name) < name.len(),
        last_dot(name) >= 0 ==> name[last_dot(name)] == '.',
        forall|i: int| last_dot(name) < i < name.len() ==> name[i] != '.',
    decreases name.len(),
{
    if name.len() > 0 && name.last() != '.' {
        let front = name.drop_last();
        lemma_last_dot(front);
        assert forall|i: int| last_dot(name) < i < name.len() implies name[i] != '.' by {
            if i < front.len() {
                assert(front[i] == name[i]);
            }
        }
    }
}

/// The extension holds no `.`. A name with a `.` ends in a `.` and its
/// extension; a name without one has the empty extension.
pub proof fn lemma_extension(name: Seq<char>)
    ensures
        !extension(name).contains('.'),
        name.contains('.') ==> exists|stem: Seq<char>| name == stem + seq!['.'] + extension(name),
        !name.contains('.') ==> extension(name) == Seq::<char>::empty(),
{
    lemma_last_dot(name);
    let dot = last_dot(name);
    let ext = extension(name);
    if ext.contains('.') {
        let i = choose|i: int| 0 <= i < ext.len() && ext[i] == '.';
        assert(name[dot + 1 + i] == '.');
    }
    if name.contains('.') {
        let i = choose|i: int| 0 <= i < name.len() && name[i] == '.';
        assert(dot >= 0);
        let stem = name.take(dot);
        assert(name =~= stem + seq!['.'] + ext);
    } else if dot >= 0 {
        assert(name.contains(name[dot]));
    }
}

/// Folding leaves the final `.` where it is.
proof fn lemma_last_dot_fold(name: Seq<char>)
    ensures
        last_dot(fold(name)) == last_dot(name),
    decreases name.len(),
{
    if name.len() > 0 {
        assert(fold(name).last() == fold_char(name.last()));
        assert(fold(name).drop_last() =~= fold(name.drop_last()));
        lemma_last_dot_fold(name.drop_last());
    }
}

/// Classification ignores case: two extensions that differ only in the
/// case of their ASCII letters have one category, and so have two names.
pub proof fn lemma_category_ignores_case(a: Seq<char>, b: Seq<char>)
    requires
        fold(a) == fold(b),
    ensures
        category_of_ext(a) == category_of_ext(b),
        category_of_name(a) == category_of_name(b),
{
    lemma_last_dot_fold(a);
    lemma_last_dot_fold(b);
    lemma_last_dot(a);
    lemma_last_dot(b);
    assert(fold(extension(a)) =~= extension(fold(a)));
    assert(fold(extension(b)) =~= extension(fold(b)));
}

/// An extension and its lower-case form have one category.
pub proof fn lemma_category_of_folded(ext: Seq<char>)
    ensures
        category_of_ext(fold(ext)) == category_of_ext(ext),
{
    assert(fold(fold(ext)) =~= fold(ext));
}

fn lower(c: char) -> (r: char)
    ensures
        r == fold_char(c),
{
    if 'A' <= c && c <= 'Z' {
        ((c as u8) + 32) as char
    } else {
        c
    }
}

fn same_text(chars: &Vec<char>, word: &str) -> (same: bool)
    ensures
        same == (chars@ == word@),
{
    let n = word.unicode_len();
    if chars.len() != n {
        return false;
    }
    let mut i: usize = 0;
    while i < n
        invariant
            n == word@.len(),
            n == chars@.len(),
            i <= n,
            forall|j: int| 0 <= j < i ==> chars@[j] == word@[j],
        decreases n - i,
    {
        if chars[i] != word.get_char(i) {
            return false;
        }
        i += 1;
    }
    assert(chars@ =~= word@);
    true
}

/// The lower-case extension of `name`, character by character.
fn folded_extension(name: &str) -> (ext: Vec<char>)
    ensures
        ext@ == fold(extension(name@)),
{
    let chars = chars_of(name);
    let n = chars.len();
    let mut start: usize = n;
    let mut found = false;
    let mut i: usize = 0;
    while i < n
        invariant
            n == chars@.len(),
            i <= n,
            found ==> 0 < start <= i,
            last_dot(chars@.take(i as int)) == (if found { start - 1 } else { -1 }),
        decreases n - i,
    {
        proof {
            let next = chars@.take(i + 1);
            assert(next.drop_last() == chars@.take(i as int));
            assert(next.last() == chars@[i as int]);
        }
        if chars[i] == '.' {
            start = i + 1;
            found = true;
        }
        i += 1;
    }
    assert(chars@.take(n as int) == chars@);
    let mut ext: Vec<char> = Vec::new();
    if !found {
        assert(ext@ =~= fold(extension(name@)));
        return ext;
    }
    let mut j: usize = start;
    while j < n
        invariant
            n == chars@.len(),
            start <= j <= n,
            ext@ == fold(chars@.subrange(start as int, j as int)),
        decreases n - j,
    {
        ext.push(lower(chars[j]));
        assert(ext@ =~= fold(chars@.subrange(start as int, j + 1)));
        j += 1;
    }
    assert(chars@.subrange(start as int, n as int) == chars@.skip(start as int));
    ext
}

/// Classifies a file by the extension of its name, ignoring case.
pub fn classify(name: &str) -> (category: Category)
    ensures
        category == category_of_name(name@),
{
    let ext = folded_extension(name);
    if same_text(&ext, "json") || same_text(&ext, "csv") || same_text(&ext, "dat") || same_text(
        &ext,
        "xml",
    ) || same_text(&ext, "yaml") || same_text(&ext, "yml") || same_text(&ext, "toml") {
        Category::Data
    } else if same_text(&ext, "rs") || same_text(&ext, "py") || same_text(&ext, "r") || same_text(
        &ext,
        "js",
    ) || same_text(&ext, "ts") || same_text(&ext, "cpp") || same_text(&ext, "c") || same_text(
        &ext,
        "h",
    ) || same_text(&ext, "hpp") || same_text(&ext, "java") || same_text(&ext, "go") {
        Category::Code
    } else if same_text(&ext, "png") || same_text(&ext, "jpg") || same_text(&ext, "jpeg")
        || same_text(&ext, "gif") || same_text(&ext, "bmp") || same_text(&ext, "svg") {
        Category::Image
    } else {
        Category::Default
    }
}

} // verus!

//! Pages as the wiki collaborator hands them over: namespace codes, the
//! page record itself, and its derived URL.

use vstd::prelude::*;

use crate::chars::string_from_chars;
use crate::date::{TitleDate, WikiTimestamp};

verus! {

/// A wiki namespace, decoded from the wiki's numeric namespace codes.
#[derive(Clone, Copy, Debug, PartialEq, Eq, Structural)]
pub enum Namespace {
    Main,
    User,
    File,
    Template,
    Category,
    Special,
    MediaWiki,
    Help,
    Module,
    MainTalk,
    UserTalk,
    FileTalk,
    TemplateTalk,
    CategoryTalk,
    MediaWikiTalk,
    HelpTalk,
    ModuleTalk,
    Media,
    Other(i32),
}

pub open spec fn spec_namespace_from_code(v: int) -> Namespace {
    if v == 0 {
        Namespace::Main
    } else if v == 2 {
        Namespace::User
    } else if v == 4 {
        Namespace::Template
    } else if v == 6 {
        Namespace::File
    } else if v == 8 {
        Namespace::MediaWiki
    } else if v == 10 {
        Namespace::Template
    } else if v == 12 {
        Namespace::Help
    } else if v == 14 {
        Namespace::Category
    } else if v == 1 {
        Namespace::MainTalk
    } else if v == 3 {
        Namespace::UserTalk
    } else if v == 5 {
        Namespace::TemplateTalk
    } else if v == 7 {
        Namespace::FileTalk
    } else if v == 9 {
        Namespace::MediaWikiTalk
    } else if v == 11 {
        Namespace::TemplateTalk
    } else if v == 13 {
        Namespace::HelpTalk
    } else if v == 15 {
        Namespace::CategoryTalk
    } else if v == 828 {
        Namespace::Module
    } else if v == 829 {
        Namespace::ModuleTalk
    } else if v == -1 {
        Namespace::Special
    } else if v == -2 {
        Namespace::Media
    } else {
        Namespace::Other(v as i32)
    }
}

/// The title prefix each namespace carries in a page URL.
pub open spec fn spec_namespace_prefix(ns: Namespace) -> Seq<char> {
    match ns {
        Namespace::Main => ""@,
        Namespace::User => "User:"@,
        Namespace::File => "File:"@,
        Namespace::Template => "Template:"@,
        Namespace::Category => "Category:"@,
        Namespace::Special => "Special:"@,
        Namespace::MediaWiki => "MediaWiki:"@,
        Namespace::Help => "Help:"@,
        Namespace::Module => "Module:"@,
        Namespace::MainTalk => "Talk:"@,
        Namespace::UserTalk => "User_talk:"@,
        Namespace::FileTalk => "File_talk:"@,
        Namespace::TemplateTalk => "Template_talk:"@,
        Namespace::CategoryTalk => "Category_talk:"@,
        Namespace::MediaWikiTalk => "MediaWiki_talk:"@,
        Namespace::HelpTalk => "Help_talk:"@,
        Namespace::ModuleTalk => "Module_talk:"@,
        Namespace::Media => "Media:"@,
        Namespace::Other(_) => "Unknown"@,
    }
}

/// The decimal rendering of a nonnegative number, without the final
/// zero-case special-cased.
pub open spec fn spec_digits(n: int) -> Seq<char>
    decreases n,
{
    if n <= 0 {
        Seq::<char>::empty()
    } else {
        spec_digits(n / 10).push((n % 10 + 48) as char)
    }
}

/// The decimal rendering of an integer, `-` first when negative.
pub open spec fn spec_int_string(n: int) -> Seq<char> {
    if n == 0 {
        seq!['0']
    } else if n < 0 {
        seq!['-'] + spec_digits(-n)
    } else {
        spec_digits(n)
    }
}

/// The name each namespace displays; a raw code displays as its number.
pub open spec fn spec_namespace_name(ns: Namespace) -> Seq<char> {
    match ns {
        Namespace::Main => "Main"@,
        Namespace::User => "User"@,
        Namespace::File => "File"@,
        Namespace::Template => "Template"@,
        Namespace::Category => "Category"@,
        Namespace::Special => "Special"@,
        Namespace::MediaWiki => "MediaWiki"@,
        Namespace::Help => "Help"@,
        Namespace::Module => "Module"@,
        Namespace::MainTalk => "MainTalk"@,
        Namespace::UserTalk => "UserTalk"@,
        Namespace::FileTalk => "FileTalk"@,
        Namespace::TemplateTalk => "TemplateTalk"@,
        Namespace::CategoryTalk => "CategoryTalk"@,
        Namespace::MediaWikiTalk => "MediaWikiTalk"@,
        Namespace::HelpTalk => "HelpTalk"@,
        Namespace::ModuleTalk => "ModuleTalk"@,
        Namespace::Media => "Media"@,
        Namespace::Other(code) => spec_int_string(code as int),
    }
}

/// Renders an integer in decimal.
pub fn int_string(n: i64) -> (r: String)
    ensures
        r@ == spec_int_string(n as int),
{
    if n == 0 {
        let v: Vec<char> = vec!['0'];
        proof {
            assert(v@ =~= seq!['0']);
        }
        return string_from_chars(&v);
    }
    let neg: bool = n < 0;
    let mut x: u64 = if n < 0 {
        (-(n as i128)) as u64
    } else {
        n as u64
    };
    let ghost x0 = x as int;
    let mut acc: Vec<char> = Vec::new();
    while x > 0
        invariant
            0 <= x,
            spec_digits(x0) == spec_digits(x as int) + acc@.reverse(),
        decreases x,
    {
        let d: u64 = x % 10;
        acc.push(((d + 48) as u8) as char);
        proof {
            let old_acc = acc@.drop_last();
            assert(acc@.last() == ((x as int) % 10 + 48) as char);
            assert(acc@.reverse() =~= seq![acc@.last()] + old_acc.reverse());
            assert(spec_digits(x as int) == spec_digits(x as int / 10).push(
                ((x as int) % 10 + 48) as char,
            ));
            assert(spec_digits(x as int) + old_acc.reverse() =~= spec_digits(x as int / 10) + (
            seq![((x as int) % 10 + 48) as char] + old_acc.reverse()));
        }
        x = x / 10;
    }
    let mut out: Vec<char> = Vec::new();
    if neg {
        out.push('-');
    }
    let ghost base = out@;
    let mut k: usize = 0;
    while k < acc.len()
        invariant
            0 <= k <= acc@.len(),
            out@.len() == base.len() + k,
            forall|j: int| 0 <= j < base.len() ==> out@[j] == base[j],
            forall|j: int|
                0 <= j < k ==> #[trigger] out@[base.len() + j] == acc@[acc@.len() - 1 - j],
        decreases acc@.len() - k,
    {
        out.push(acc[acc.len() - 1 - k]);
        k = k + 1;
    }
    proof {
        assert(spec_digits(x0) =~= acc@.reverse());
        let rev = acc@.reverse();
        assert(rev.len() == acc@.len());
        assert forall|j: int| 0 <= j < acc@.len() implies rev[j] == acc@[acc@.len() - 1 - j] by {
            assert(acc@.len() > 0);
            assert(rev == Seq::new(acc@.len(), |i: int| acc@[acc@.len() - 1 - i]));
        }
        assert forall|i: int| 0 <= i < out@.len() implies out@[i] == (base + rev)[i] by {
            if i >= base.len() {
                let j = i - base.len();
                assert(out@[base.len() + j] == acc@[acc@.len() - 1 - j]);
            }
        }
        assert(out@ =~= base + acc@.reverse());
        if neg {
            assert(out@ =~= seq!['-'] + spec_digits(-(n as int)));
        } else {
            assert(out@ =~= spec_digits(n as int));
        }
    }
    string_from_chars(&out)
}

impl Namespace {
    /// Decodes the wiki's numeric namespace code.
    pub fn from_code(value: i32) -> (r: Namespace)
        ensures
            r == spec_namespace_from_code(value as int),
    {
        match value {
            0 => Namespace::Main,
            2 => Namespace::User,
            4 => Namespace::Template,
            6 => Namespace::File,
            8 => Namespace::MediaWiki,
            10 => Namespace::Template,
            12 => Namespace::Help,
            14 => Namespace::Category,
            1 => Namespace::MainTalk,
            3 => Namespace::UserTalk,
            5 => Namespace::TemplateTalk,
            7 => Namespace::FileTalk,
            9 => Namespace::MediaWikiTalk,
            11 => Namespace::TemplateTalk,
            13 => Namespace::HelpTalk,
            15 => Namespace::CategoryTalk,
            828 => Namespace::Module,
            829 => Namespace::ModuleTalk,
            -1 => Namespace::Special,
            -2 => Namespace::Media,
            i => Namespace::Other(i),
        }
    }

    /// The title prefix this namespace carries in a page URL.
    pub fn to_prefix(self) -> (r: &'static str)
        ensures
            r@ == spec_namespace_prefix(self),
    {
        match self {
            Namespace::Main => "",
            Namespace::User => "User:",
            Namespace::File => "File:",
            Namespace::Template => "Template:",
            Namespace::Category => "Category:",
            Namespace::Special => "Special:",
            Namespace::MediaWiki => "MediaWiki:",
            Namespace::Help => "Help:",
            Namespace::Module => "Module:",
            Namespace::MainTalk => "Talk:",
            Namespace::UserTalk => "User_talk:",
            Namespace::FileTalk => "File_talk:",
            Namespace::TemplateTalk => "Template_talk:",
            Namespace::CategoryTalk => "Category_talk:",
            Namespace::MediaWikiTalk => "MediaWiki_talk:",
            Namespace::HelpTalk => "Help_talk:",
            Namespace::ModuleTalk => "Module_talk:",
            Namespace::Media => "Media:",
            Namespace::Other(_) => "Unknown",
        }
    }

    /// The namespace's display name; raw codes display as their number.
    pub fn name(self) -> (r: String)
        ensures
            r@ == spec_namespace_name(self),
    {
        match self {
            Namespace::Main => "Main".to_owned(),
            Namespace::User => "User".to_owned(),
            Namespace::File => "File".to_owned(),
            Namespace::Template => "Template".to_owned(),
            Namespace::Category => "Category".to_owned(),
            Namespace::Special => "Special".to_owned(),
            Namespace::MediaWiki => "MediaWiki".to_owned(),
            Namespace::Help => "Help".to_owned(),
            Namespace::Module => "Module".to_owned(),
            Namespace::MainTalk => "MainTalk".to_owned(),
            Namespace::UserTalk => "UserTalk".to_owned(),
            Namespace::FileTalk => "FileTalk".to_owned(),
            Namespace::TemplateTalk => "TemplateTalk".to_owned(),
            Namespace::CategoryTalk => "CategoryTalk".to_owned(),
            Namespace::MediaWikiTalk => "MediaWikiTalk".to_owned(),
            Namespace::HelpTalk => "HelpTalk".to_owned(),
            Namespace::ModuleTalk => "ModuleTalk".to_owned(),
            Namespace::Media => "Media".to_owned(),
            Namespace::Other(code) => int_string(code as i64),
        }
    }
}

/// One page of the source wiki, as the collaborator produces it for a
/// reindex pass.
#[derive(Clone, Debug)]
pub struct Page {
    pub id: i64,
    pub title: String,
    pub text: String,
    pub title_date: TitleDate,
    pub updated: WikiTimestamp,
    pub namespace: Namespace,
    pub categories: Vec<String>,
    pub url: String,
}

impl Page {
    /// Any title date held is well formed.
    pub open spec fn wf(self) -> bool {
        self.title_date.wf()
    }

    /// The page's fully qualified URL under `base`.
    pub fn to_url(&self, base: &str) -> (r: String)
        ensures
            r@ == base@ + spec_namespace_prefix(self.namespace) + self.title@,
    {
        let s = base.to_owned();
        let s = s.concat(self.namespace.to_prefix());
        let s = s.concat(self.title.as_str());
        s
    }
}

} // verus!

//! The language of the user interface.

use std::str::FromStr;

use vstd::prelude::*;
use vstd::string::*;

use crate::text::{ascii_lower, ascii_lower_text, same, to_ascii_lower};

verus! {

#[derive(Debug, Clone, Copy, PartialEq, Eq, Hash, Structural)]
pub enum Locale {
    En,
    ZhCn,
}

pub open spec fn tag(l: Locale) -> Seq<char> {
    match l {
        Locale::En => "en"@,
        Locale::ZhCn => "zh_CN"@,
    }
}

/// The locale that a lower-case name stands for. Traditional Chinese falls back
/// to simplified.
pub open spec fn locale_named(n: Seq<char>) -> Option<Locale> {
    if n == "en"@ || n == "english"@ {
        Some(Locale::En)
    } else if n == "zh"@ || n == "zh_cn"@ || n == "zh-cn"@ || n == "chinese"@ || n == "简体中文"@ || n
        == "zh_tw"@ || n == "zh-tw"@ || n == "zh_hk"@ || n == "zh-hk"@ || n == "繁體中文"@ {
        Some(Locale::ZhCn)
    } else {
        None
    }
}

impl Locale {
    /// The tag of the locale.
    pub fn to_string(&self) -> (r: String)
        ensures
            r@ == tag(*self),
    {
        match self {
            Locale::En => "en".to_owned(),
            Locale::ZhCn => "zh_CN".to_owned(),
        }
    }
}

impl FromStr for Locale {
    type Err = String;

    /// The locale of a name, in any case of its ASCII letters.
    fn from_str(s: &str) -> (r: Result<Self, String>)
        ensures
            match r {
                Ok(l) => locale_named(ascii_lower_text(s@)) == Some(l),
                Err(e) => locale_named(ascii_lower_text(s@)) is None && e@ == "unsupported locale: "@
                    + ascii_lower_text(s@),
            },
    {
        let lower = to_ascii_lower(s);
        let n = lower.as_str();
        if same(n, "en") || same(n, "english") {
            Ok(Locale::En)
        } else if same(n, "zh") || same(n, "zh_cn") || same(n, "zh-cn") || same(n, "chinese") || same(
            n,
            "简体中文",
        ) || same(n, "zh_tw") || same(n, "zh-tw") || same(n, "zh_hk") || same(n, "zh-hk") || same(
            n,
            "繁體中文",
        ) {
            Ok(Locale::ZhCn)
        } else {
            let mut e = "unsupported locale: ".to_owned();
            e.append(n);
            Err(e)
        }
    }
}

impl Default for Locale {
    fn default() -> (r: Self)
        ensures
            r == Locale::En,
    {
        Locale::En
    }
}

/// A locale is read back from its own tag.
pub proof fn tags_are_read_back(l: Locale)
    ensures
        locale_named(ascii_lower_text(tag(l))) == Some(l),
{
    reveal_strlit("en");
    reveal_strlit("zh_CN");
    reveal_strlit("zh_cn");
    reveal_strlit("english");
    match l {
        Locale::En => {
            assert(ascii_lower_text("en"@) =~= "en"@);
        },
        Locale::ZhCn => {
            assert(ascii_lower('C') == 'c') by {
                assert('C' as u8 + 32 == 99);
            }
            assert(ascii_lower('N') == 'n');
            assert(ascii_lower_text("zh_CN"@) =~= "zh_cn"@);
            assert("zh_cn"@.len() != "en"@.len());
            assert("zh_cn"@.len() != "english"@.len());
        },
    }
}

/// Languages go by their tags and by their names, in any case of ASCII letters;
/// traditional Chinese, which has no texts of its own, falls back to simplified.
pub proof fn languages_go_by_many_names(s: Seq<char>)
    ensures
        locale_named("en"@) == Some(Locale::En),
        locale_named("english"@) == Some(Locale::En),
        locale_named("zh"@) == Some(Locale::ZhCn),
        locale_named("zh_cn"@) == Some(Locale::ZhCn),
        locale_named("zh-cn"@) == Some(Locale::ZhCn),
        locale_named("chinese"@) == Some(Locale::ZhCn),
        locale_named("zh_tw"@) == Some(Locale::ZhCn),
        locale_named("zh-tw"@) == Some(Locale::ZhCn),
        locale_named("zh_hk"@) == Some(Locale::ZhCn),
        locale_named("zh-hk"@) == Some(Locale::ZhCn),
        locale_named("简体中文"@) == Some(Locale::ZhCn),
        locale_named("繁體中文"@) == Some(Locale::ZhCn),
        s.len() == 0 || s.len() > 7 ==> locale_named(s) is None,
        tag(Locale::En) == "en"@ && tag(Locale::ZhCn) == "zh_CN"@,
{
    reveal_strlit("en");
    reveal_strlit("english");
    reveal_strlit("zh");
    reveal_strlit("zh_cn");
    reveal_strlit("zh-cn");
    reveal_strlit("chinese");
    reveal_strlit("zh_tw");
    reveal_strlit("zh-tw");
    reveal_strlit("zh_hk");
    reveal_strlit("zh-hk");
    reveal_strlit("简体中文");
    reveal_strlit("繁體中文");
    assert("en"@[0] == 'e' && "english"@[0] == 'e' && "zh"@[0] == 'z' && "zh_cn"@[0] == 'z' && "zh-cn"@[0] == 'z'
        && "chinese"@[0] == 'c' && "zh_tw"@[0] == 'z' && "zh-tw"@[0] == 'z' && "zh_hk"@[0] == 'z' && "zh-hk"@[0] == 'z'
        && "简体中文"@[0] == '简' && "繁體中文"@[0] == '繁');
}

} // verus!

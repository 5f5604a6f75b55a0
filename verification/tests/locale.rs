use atomcode_core::locale::Locale;

#[test]
fn display_round_trips_through_from_str() {
    assert_eq!(Locale::En.to_string().parse::<Locale>().unwrap(), Locale::En);
    assert_eq!(Locale::ZhCn.to_string().parse::<Locale>().unwrap(), Locale::ZhCn);
}

#[test]
fn from_str_accepts_common_aliases() {
    assert_eq!("en".parse::<Locale>().unwrap(), Locale::En);
    assert_eq!("English".parse::<Locale>().unwrap(), Locale::En);
    assert_eq!("zh".parse::<Locale>().unwrap(), Locale::ZhCn);
    assert_eq!("zh_CN".parse::<Locale>().unwrap(), Locale::ZhCn);
    assert_eq!("zh-cn".parse::<Locale>().unwrap(), Locale::ZhCn);
    assert_eq!("简体中文".parse::<Locale>().unwrap(), Locale::ZhCn);
    assert_eq!("zh_TW".parse::<Locale>().unwrap(), Locale::ZhCn);
    assert_eq!("zh-tw".parse::<Locale>().unwrap(), Locale::ZhCn);
    assert_eq!("zh_HK".parse::<Locale>().unwrap(), Locale::ZhCn);
    assert_eq!("zh-hk".parse::<Locale>().unwrap(), Locale::ZhCn);
    assert_eq!("繁體中文".parse::<Locale>().unwrap(), Locale::ZhCn);
}

#[test]
fn from_str_rejects_unknown() {
    assert!("fr".parse::<Locale>().is_err());
    assert!("".parse::<Locale>().is_err());
}

#[test]
fn tags_are_short() {
    assert_eq!(Locale::En.to_string(), "en");
    assert_eq!(Locale::ZhCn.to_string(), "zh_CN");
}

#[test]
fn unknown_locales_are_named_in_the_error() {
    assert_eq!("FR".parse::<Locale>(), Err("unsupported locale: fr".to_string()));
    assert_eq!("ENGLISH".parse::<Locale>(), Ok(Locale::En));
}

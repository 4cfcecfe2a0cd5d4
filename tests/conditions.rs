use mcvm::conditions::{
    override_configured_package_input, ConditionKind, EvalContext, PackageOverrides, ParseError,
    Value,
};
use mcvm::lex::{lex, TextPos, Token};
use mcvm::script::{parse_condition, parse_condition_text, ConditionError};
use mcvm::target::{
    ArchCondition, Language, Modloader, ModloaderMatch, OSCondition, PackageStability,
    PluginLoader, PluginLoaderMatch, Side,
};

fn pos() -> TextPos {
    TextPos { line: 1, column: 1 }
}

fn ident(s: &str) -> Token {
    Token::Ident(s.to_string())
}

fn context() -> EvalContext {
    EvalContext {
        version: "1.19".to_string(),
        versions: vec!["1.18".to_string(), "1.19".to_string(), "1.20".to_string()],
        side: Side::Server,
        modloader: Modloader::Fabric,
        plugin_loader: PluginLoader::Vanilla,
        os: OSCondition::Windows,
        arch: ArchCondition::X86_64,
        stability: PackageStability::Stable,
        language: Language::AmericanEnglish,
        features: vec!["shaders".to_string()],
        vars: vec![("name".to_string(), "bob".to_string())],
        content_version: None,
    }
}

#[test]
fn side_client_and_os_windows_scenario() {
    let toks = lex("side client and os windows").unwrap();
    let cond = parse_condition(&toks).unwrap();
    assert_eq!(
        cond,
        ConditionKind::And(
            Box::new(ConditionKind::Side(Some(Side::Client))),
            Some(Box::new(ConditionKind::OS(Some(OSCondition::Windows))))
        )
    );
    assert!(!cond.evaluate(&context()));
}

#[test]
fn chaining_is_left_associative() {
    let cond = parse_condition_text("os linux or side server and modloader forge").unwrap();
    assert_eq!(
        cond,
        ConditionKind::And(
            Box::new(ConditionKind::Or(
                Box::new(ConditionKind::OS(Some(OSCondition::Linux))),
                Some(Box::new(ConditionKind::Side(Some(Side::Server))))
            )),
            Some(Box::new(ConditionKind::Modloader(Some(ModloaderMatch::Forge))))
        )
    );
    // A false, B true, C false: (A or B) and C is false
    assert!(!cond.evaluate(&context()));
}

#[test]
fn finished_only_after_last_required_token() {
    let mut cond = ConditionKind::parse_from_str("value").unwrap();
    assert!(!cond.is_finished_parsing());
    cond.parse(&Token::Variable("name".into()), &pos()).unwrap();
    assert!(!cond.is_finished_parsing());
    cond.parse(&Token::Str("bob".into()), &pos()).unwrap();
    assert!(cond.is_finished_parsing());
    cond.parse(&ident("and"), &pos()).unwrap();
    assert!(!cond.is_finished_parsing());
    cond.parse(&ident("not"), &pos()).unwrap();
    assert!(!cond.is_finished_parsing());
    cond.parse(&ident("feature"), &pos()).unwrap();
    assert!(!cond.is_finished_parsing());
    cond.parse(&Token::Str("shaders".into()), &pos()).unwrap();
    assert!(cond.is_finished_parsing());
    // bob == bob and not (feature shaders enabled) -> false
    assert!(!cond.evaluate(&context()));
}

#[test]
fn token_after_finished_is_an_error() {
    let mut cond = ConditionKind::parse_from_str("side").unwrap();
    cond.parse(&ident("client"), &pos()).unwrap();
    let p = TextPos { line: 3, column: 7 };
    assert_eq!(
        cond.parse(&ident("side"), &p),
        Err(ParseError::UnknownCombinator("side".into(), p))
    );
    assert_eq!(
        cond.parse(&Token::Semicolon, &p),
        Err(ParseError::UnexpectedToken(Token::Semicolon, p))
    );
    assert_eq!(cond, ConditionKind::Side(Some(Side::Client)));
}

#[test]
fn unknown_enum_argument_fails() {
    let mut cond = ConditionKind::parse_from_str("os").unwrap();
    let p = TextPos { line: 2, column: 4 };
    assert_eq!(
        cond.parse(&ident("beos"), &p),
        Err(ParseError::UnknownArgument("beos".into(), p))
    );
    assert_eq!(cond, ConditionKind::OS(None));
    let mut cond = ConditionKind::parse_from_str("not").unwrap();
    assert_eq!(
        cond.parse(&ident("weather"), &p),
        Err(ParseError::UnknownCondition("weather".into(), p))
    );
    assert!(ConditionKind::parse_from_str("weather").is_none());
}

#[test]
fn enum_names_round_trip() {
    for os in [OSCondition::Windows, OSCondition::Linux, OSCondition::MacOS, OSCondition::Unix, OSCondition::Other] {
        assert_eq!(OSCondition::parse_from_str(os.to_str()), Some(os));
    }
    for arch in [ArchCondition::X86, ArchCondition::X86_64, ArchCondition::Arm, ArchCondition::Other] {
        assert_eq!(ArchCondition::parse_from_str(arch.to_str()), Some(arch));
    }
    for side in [Side::Client, Side::Server] {
        assert_eq!(Side::parse_from_str(side.to_str()), Some(side));
    }
    for s in [PackageStability::Stable, PackageStability::Latest] {
        assert_eq!(PackageStability::parse_from_str(s.to_str()), Some(s));
    }
    for m in [ModloaderMatch::Vanilla, ModloaderMatch::Forge, ModloaderMatch::NeoForged, ModloaderMatch::Fabric, ModloaderMatch::Quilt, ModloaderMatch::FabricLike, ModloaderMatch::ForgeLike] {
        assert_eq!(ModloaderMatch::parse_from_str(m.to_str()), Some(m));
    }
    for p in [PluginLoaderMatch::Vanilla, PluginLoaderMatch::Bukkit, PluginLoaderMatch::Paper, PluginLoaderMatch::Sponge] {
        assert_eq!(PluginLoaderMatch::parse_from_str(p.to_str()), Some(p));
    }
    for l in [Language::AmericanEnglish, Language::German, Language::Japanese] {
        assert_eq!(Language::parse_from_str(l.to_str()), Some(l));
    }
    assert_eq!(OSCondition::parse_from_str("macos"), Some(OSCondition::MacOS));
    assert_eq!(ArchCondition::parse_from_str("x86_64"), Some(ArchCondition::X86_64));
    assert_eq!(OSCondition::parse_from_str("Windows"), None);
    assert_eq!(ArchCondition::parse_from_str("arm64"), None);
    assert_eq!(Side::parse_from_str(""), None);
    assert_eq!(Language::parse_from_str("xx_yy"), None);
}

#[test]
fn leaf_conditions_evaluate_against_context() {
    let ctx = context();
    let holds = |text: &str| parse_condition_text(text).unwrap().evaluate(&ctx);
    assert!(holds("version \"1.18+\""));
    assert!(!holds("version \"1.20\""));
    assert!(holds("modloader fabriclike"));
    assert!(!holds("modloader forgelike"));
    assert!(holds("plugin_loader vanilla"));
    assert!(holds("feature \"shaders\""));
    assert!(holds("defined name"));
    assert!(!holds("defined other"));
    assert!(holds("value $name \"bob\""));
    assert!(holds("stability stable"));
    assert!(holds("language en_us"));
    assert!(holds("arch x86_64"));
    assert!(!holds("os unix"));
    assert!(holds("not os linux"));
    assert!(!holds("content_version \"2\""));
}

#[test]
fn condition_errors() {
    assert_eq!(parse_condition(&vec![]), Err(ConditionError::Empty));
    assert_eq!(
        parse_condition_text("side").map_err(|_| ()),
        Err(())
    );
    let toks = lex("value $x").unwrap();
    assert_eq!(parse_condition(&toks), Err(ConditionError::Unfinished));
    let toks = lex("version client").unwrap();
    assert!(matches!(
        parse_condition(&toks),
        Err(ConditionError::Parse(ParseError::UnexpectedToken(..)))
    ));
    assert_eq!(
        Value::Literal("a".into()).is_some(),
        true
    );
    assert!(!Value::Unset.is_some());
}

#[test]
fn configured_package_overrides_input() {
    let mut ctx = context();
    let overrides = PackageOverrides {
        stability: Some(PackageStability::Latest),
        features: vec!["extra".to_string()],
        content_version: Some("2".to_string()),
    };
    override_configured_package_input(&overrides, &mut ctx);
    assert_eq!(ctx.stability, PackageStability::Latest);
    assert_eq!(ctx.features, vec!["shaders".to_string(), "extra".to_string()]);
    assert_eq!(ctx.content_version, Some("2".to_string()));
    assert!(parse_condition_text("content_version \"2\"").unwrap().evaluate(&ctx));
    let mut untouched = context();
    override_configured_package_input(&PackageOverrides::default(), &mut untouched);
    assert_eq!(untouched.stability, PackageStability::Stable);
    assert_eq!(untouched.content_version, None);
}

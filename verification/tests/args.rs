use cargo_deplint::{parse_args, Args};

fn parse(x: &str) -> Result<Args, &'static str> {
    parse_args(x.split_ascii_whitespace().map(|x| x.to_owned()).collect())
}

#[test]
fn args() {
    // cargo-deplint
    assert_eq!(parse("path/to/cargo-deplint"), Err("not enough args"));
    assert_eq!(parse("path/to/cargo-deplint foo"), Err("not enough args"));
    assert_eq!(
        parse("path/to/cargo-deplint foo bar"),
        Ok(Args {
            cargo_lock: "foo".into(),
            lints: "bar".into()
        })
    );
    assert_eq!(
        parse("path/to/cargo-deplint foo bar baz"),
        Err("too many args")
    );

    // cargo deplint
    assert_eq!(
        parse("path/to/cargo-deplint deplint"),
        Err("not enough args")
    );
    assert_eq!(
        parse("path/to/cargo-deplint deplint foo"),
        Err("not enough args")
    );
    assert_eq!(
        parse("path/to/cargo-deplint deplint foo bar"),
        Ok(Args {
            cargo_lock: "foo".into(),
            lints: "bar".into()
        })
    );
    assert_eq!(
        parse("path/to/cargo-deplint deplint foo bar baz"),
        Err("too many args")
    );
}

#[test]
fn args_empty_command_line() {
    assert_eq!(parse_args(Vec::new()), Err("not enough args"));
}

#[test]
fn args_subcommand_word_as_a_path() {
    assert_eq!(
        parse("cargo-deplint deplint deplint rules"),
        Ok(Args {
            cargo_lock: "deplint".into(),
            lints: "rules".into()
        })
    );
    assert_eq!(parse("cargo-deplint lock deplint"), Ok(Args {
        cargo_lock: "lock".into(),
        lints: "deplint".into()
    }));
}

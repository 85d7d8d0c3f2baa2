use mapper::application::Application;
use mapper::config::into_domain::{parse_key_input, split_at_hyphens, IsIntoDomain};
use mapper::config::invalid_config_error::InvalidConfigError;
use mapper::config::values;
use mapper::key::{Key, KeyInput, Modifier, Modifiers};
use mapper::x::x_into_domain::XIntoDomain;
use mapper::x::XExecution;

const RETURN: u64 = 0xff0d;
const LEFT: u64 = 0xff51;
const H: u64 = 0x68;
const SHIFT: u32 = 1;
const CONTROL: u32 = 4;
const MOD2: u32 = 16;

fn x_into_domain() -> XIntoDomain {
    XIntoDomain::new(
        vec![("Return".to_string(), RETURN), ("Left".to_string(), LEFT), ("h".to_string(), H)],
        vec![
            ("Shift".to_string(), SHIFT),
            ("Control".to_string(), CONTROL),
            ("Mod2".to_string(), MOD2),
        ],
    )
}

fn parse(text: &str) -> Result<KeyInput<u64, u32>, InvalidConfigError> {
    parse_key_input(&x_into_domain(), &values::KeyInput(text.to_string()))
}

#[test]
fn x_into_domain_returns_domain_application() {
    assert_eq!(
        x_into_domain().into_domain_application(values::Application("app".to_string())).ok(),
        Some(Application::new("app".to_string()))
    );
}

#[test]
fn x_into_domain_keyinput_with_only_key() {
    assert_eq!(
        parse("Return").ok(),
        Some(KeyInput::new(Key::new(RETURN), Modifiers::new(vec![])))
    );
}

#[test]
fn x_into_domain_keyinput_with_modifiers_and_key() {
    assert_eq!(
        parse("Control-Shift-Return").ok(),
        Some(KeyInput::new(
            Key::new(RETURN),
            Modifiers::new(vec![Modifier::new(CONTROL), Modifier::new(SHIFT)])
        ))
    );
}

#[test]
fn x_into_domain_keyinput_does_not_depend_on_the_order_of_modifiers() {
    assert_eq!(parse("Shift-Control-Return"), parse("Control-Shift-Return"));
    assert_eq!(parse("Shift-Shift-Return"), parse("Shift-Return"));
}

#[test]
fn x_into_domain_keyinput_with_invalid_key() {
    assert_eq!(parse("nonexistent").is_err(), true);
    assert_eq!(
        parse("NonExistentKey"),
        Err(InvalidConfigError::UnexpectedKey("NonExistentKey".to_string()))
    );
}

#[test]
fn x_into_domain_keyinput_with_invalid_modifier() {
    assert_eq!(parse("NonExistent-Return").is_err(), true);
    assert_eq!(
        parse("NonExistentModifier-Return"),
        Err(InvalidConfigError::UnexpectedModifier("NonExistentModifier".to_string()))
    );
}

#[test]
fn x_into_domain_keyinput_with_empty_string() {
    assert_eq!(parse(""), Err(InvalidConfigError::EmptyKey));
}

#[test]
fn x_into_domain_keyinput_without_key_after_modifiers() {
    assert_eq!(parse("Control-"), Err(InvalidConfigError::EmptyKey));
    assert_eq!(parse("Bad-"), Err(InvalidConfigError::EmptyKey));
}

#[test]
fn x_into_domain_keyinput_with_empty_modifier() {
    assert_eq!(parse("-Return"), Err(InvalidConfigError::UnexpectedModifier("".to_string())));
}

#[test]
fn x_into_domain_keyinput_reports_the_key_before_the_modifiers() {
    assert_eq!(parse("Bad-AlsoBad"), Err(InvalidConfigError::UnexpectedKey("AlsoBad".to_string())));
    assert_eq!(
        parse("Bad-Worse-Return"),
        Err(InvalidConfigError::UnexpectedModifier("Bad".to_string()))
    );
}

#[test]
fn x_into_domain_resolves_key_and_modifier_and_execution() {
    assert_eq!(
        x_into_domain().into_domain_key(values::Key("Left".to_string())),
        Ok(Key::new(LEFT))
    );
    assert_eq!(
        x_into_domain().into_domain_modifier(values::Modifier("Mod2".to_string())),
        Ok(Modifier::new(MOD2))
    );
    assert_eq!(
        x_into_domain().into_domain_execution(values::Execution("ls -l".to_string())),
        Ok(XExecution::ShellCommand("ls -l".to_string()))
    );
    assert_eq!(
        x_into_domain().into_domain_key(values::Key("Shift".to_string())),
        Err(InvalidConfigError::UnexpectedKey("Shift".to_string()))
    );
}

#[test]
fn x_into_domain_takes_the_first_entry_of_a_name() {
    let into_domain = XIntoDomain::new(
        vec![("a".to_string(), 1), ("a".to_string(), 2)],
        vec![],
    );
    assert_eq!(into_domain.into_domain_key(values::Key("a".to_string())), Ok(Key::new(1)));
}

#[test]
fn split_at_hyphens_gives_the_tokens() {
    assert_eq!(split_at_hyphens(""), vec!["".to_string()]);
    assert_eq!(split_at_hyphens("Return"), vec!["Return".to_string()]);
    assert_eq!(
        split_at_hyphens("Control-Shift-Return"),
        vec!["Control".to_string(), "Shift".to_string(), "Return".to_string()]
    );
    assert_eq!(split_at_hyphens("a--b-"), vec!["a".to_string(), "".to_string(), "b".to_string(), "".to_string()]);
    assert_eq!(split_at_hyphens("é-ü"), vec!["é".to_string(), "ü".to_string()]);
}

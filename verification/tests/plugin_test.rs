use twinz::kv::{kv_command, KvCommand};
use twinz::plugin::{PluginError, PluginLoader, PluginManager, StaticPluginLoader};
use twinz::wasm::{module_source, unpack_reply, CommandReply, ModuleSource};

#[test]
fn static_loader_knows_builtin_names() {
    let loader = StaticPluginLoader::new("kv-plugin".to_string());
    assert!(loader.can_load("kv"));
    assert!(loader.can_load("simple"));
    assert!(!loader.can_load("other"));
    assert_eq!(loader.load("kv").unwrap(), "kv-plugin");
    assert!(matches!(loader.load("other"), Err(PluginError::NotFound(n)) if n == "other"));
}

#[test]
fn register_replaces_plugin() {
    let mut loader = StaticPluginLoader::new(1u32);
    loader.register("extra", 2);
    loader.register("kv", 3);
    assert_eq!(loader.load("extra").unwrap(), 2);
    assert_eq!(loader.load("kv").unwrap(), 3);
    assert_eq!(loader.load("simple").unwrap(), 1);
}

#[test]
fn manager_asks_loaders_in_order() {
    let mut manager: PluginManager<u32, Box<dyn PluginLoader<u32>>> = PluginManager::new();
    assert!(matches!(manager.get_plugin("kv"), Err(PluginError::NotFound(n)) if n == "kv"));
    let mut first = StaticPluginLoader::new(1u32);
    first.register("only_first", 10);
    let mut second = StaticPluginLoader::new(2u32);
    second.register("only_second", 20);
    manager.register_loader(Box::new(first));
    manager.register_loader(Box::new(second));
    assert_eq!(manager.select_loader("kv"), Some(0));
    assert_eq!(manager.get_plugin("kv").unwrap(), 1);
    assert_eq!(manager.get_plugin("only_second").unwrap(), 20);
    assert_eq!(manager.select_loader("none"), None);
    assert!(matches!(manager.get_plugin("none"), Err(PluginError::NotFound(_))));
}

#[test]
fn kv_commands() {
    assert_eq!(kv_command(3, Some("SET")), KvCommand::Store);
    assert_eq!(kv_command(2, Some("SET")), KvCommand::Echo);
    assert_eq!(kv_command(2, Some("GET")), KvCommand::Fetch);
    assert_eq!(kv_command(5, Some("GET")), KvCommand::Fetch);
    assert_eq!(kv_command(1, Some("GET")), KvCommand::Echo);
    assert_eq!(kv_command(3, Some("set")), KvCommand::Echo);
    assert_eq!(kv_command(3, None), KvCommand::Echo);
}

#[test]
fn wasm_module_sources() {
    assert_eq!(module_source("x.wasm"), ModuleSource::File("x.wasm".to_string()));
    assert_eq!(module_source("echo"), ModuleSource::InPluginDir("echo.wasm".to_string()));
    assert_eq!(module_source(".wasm"), ModuleSource::File(".wasm".to_string()));
    assert_eq!(module_source("wasm"), ModuleSource::InPluginDir("wasm.wasm".to_string()));
}

#[test]
fn packed_replies() {
    let packed: i64 = (0x1234i64 << 32) | 17;
    assert_eq!(unpack_reply(packed), CommandReply::Bytes { ptr: 0x1234, len: 17 });
    assert_eq!(unpack_reply(0x1234i64 << 32), CommandReply::Empty);
    assert_eq!(unpack_reply(-1), CommandReply::Empty);
    assert_eq!(unpack_reply((5i64 << 32) | 0x8000_0000), CommandReply::Empty);
}

use merkle_store::{Finalize, GenerateNodeConfig};

#[test]
fn generate_node_config_arguments() {
    let args = GenerateNodeConfig::args();
    assert_eq!(args.len(), 4);
    assert_eq!(args[0].name, "EJB_JVM_ARGUMENTS");
    assert!(!args[0].required);
    assert!(args[0].multiple);
    assert_eq!(args[1].name, "EJB_LOG_CONFIG_PATH");
    assert!(!args[1].required);
    assert_eq!(args[2].name, "EJB_SERVICE_CLASSPATH");
    assert!(args[2].required);
    assert_eq!(args[3].name, "EJB_LIBPATH");
    assert!(args[3].required);
    assert_eq!(args[0].long_name, "ejb-jvm-args");
}

#[test]
fn finalize_arguments() {
    let args = Finalize::args();
    assert_eq!(args.len(), 2);
    assert_eq!(args[0].name, "EJB_MODULE_NAME");
    assert!(args[0].required);
    assert_eq!(args[1].name, "EJB_PORT");
    assert!(args[1].required);
}

#[test]
fn jvm_config_holds_argument_values() {
    let cfg = GenerateNodeConfig::create_jvm_config(
        vec!["Xmx2G".to_string()],
        "system.jar".to_string(),
        "service.jar".to_string(),
        "/lib".to_string(),
        "/log4j.xml".to_string(),
    );
    assert_eq!(cfg.user_parameters, vec!["Xmx2G".to_string()]);
    assert_eq!(cfg.system_class_path, "system.jar");
    assert_eq!(cfg.service_class_path, "service.jar");
    assert_eq!(cfg.lib_path, "/lib");
    assert_eq!(cfg.log_config_path, "/log4j.xml");
}

#[test]
fn finalize_builds_full_config() {
    let jvm = GenerateNodeConfig::create_jvm_config(
        Vec::new(),
        "s".to_string(),
        "c".to_string(),
        "l".to_string(),
        String::new(),
    );
    let cfg = Finalize::create_config(jvm, "com.example.Module".to_string(), 6400);
    assert_eq!(cfg.service_config.module_name, "com.example.Module");
    assert_eq!(cfg.service_config.port, 6400);
    assert_eq!(cfg.jvm_config.system_class_path, "s");
}

#[test]
fn configuration_keys() {
    assert_eq!(GenerateNodeConfig::jvm_config_key(), "ejb_jvm_config");
    assert_eq!(Finalize::config_key(), "ejb");
}

//! The node-configuration command extensions: the argument lists the two
//! commands expose and the configuration records they assemble from parsed
//! argument values. Reading the command context and serializing the result
//! into the node's configuration file happen outside this crate; what is
//! decided here is which arguments exist and how their values form the
//! persisted configuration.

use vstd::prelude::*;

verus! {

broadcast use vstd::string::to_string_from_display_ensures_for_str;

/// Startup parameters for the embedded JVM.
pub struct JvmConfig {
    pub user_parameters: Vec<String>,
    pub system_class_path: String,
    pub service_class_path: String,
    pub lib_path: String,
    pub log_config_path: String,
}

/// Parameters of the hosted service.
pub struct ServiceConfig {
    pub module_name: String,
    pub port: i32,
}

/// The full configuration block persisted into the node's configuration.
pub struct Config {
    pub jvm_config: JvmConfig,
    pub service_config: ServiceConfig,
}

/// One named command-line argument a command accepts.
pub struct Argument {
    pub name: String,
    pub required: bool,
    pub help: String,
    pub long_name: String,
    pub multiple: bool,
}

/// The command extension that assembles the JVM part of the configuration
/// when key material is generated.
pub struct GenerateNodeConfig;

/// The command extension that finalizes the configuration with the service
/// module and port.
pub struct Finalize;

impl GenerateNodeConfig {
    /// The arguments this command accepts: optional JVM parameters and log
    /// configuration, required service classpath and library path.
    pub fn args() -> (r: Vec<Argument>)
        ensures
            r@.len() == 4,
            r@[0].name@ == "EJB_JVM_ARGUMENTS"@ && !r@[0].required && r@[0].multiple,
            r@[1].name@ == "EJB_LOG_CONFIG_PATH"@ && !r@[1].required && !r@[1].multiple,
            r@[2].name@ == "EJB_SERVICE_CLASSPATH"@ && r@[2].required && !r@[2].multiple,
            r@[3].name@ == "EJB_LIBPATH"@ && r@[3].required && !r@[3].multiple,
    {
        let mut r: Vec<Argument> = Vec::new();
        r.push(
            Argument {
                name: "EJB_JVM_ARGUMENTS".to_string(),
                required: false,
                help: "Additional parameters for JVM. Must not have a leading dash. For example, `Xmx2G` or `Xdebug`".to_string(),
                long_name: "ejb-jvm-args".to_string(),
                multiple: true,
            },
        );
        r.push(
            Argument {
                name: "EJB_LOG_CONFIG_PATH".to_string(),
                required: false,
                help: "Path to log4j configuration file.".to_string(),
                long_name: "ejb-log-config-path".to_string(),
                multiple: false,
            },
        );
        r.push(
            Argument {
                name: "EJB_SERVICE_CLASSPATH".to_string(),
                required: true,
                help: "Java service classpath.".to_string(),
                long_name: "ejb-service-classpath".to_string(),
                multiple: false,
            },
        );
        r.push(
            Argument {
                name: "EJB_LIBPATH".to_string(),
                required: true,
                help: "Path to java-bindings shared library.".to_string(),
                long_name: "ejb-libpath".to_string(),
                multiple: false,
            },
        );
        r
    }

    /// Assemble the JVM configuration from the parsed argument values.
    pub fn create_jvm_config(
        user_parameters: Vec<String>,
        system_class_path: String,
        service_class_path: String,
        lib_path: String,
        log_config_path: String,
    ) -> (r: JvmConfig)
        ensures
            r.user_parameters == user_parameters,
            r.system_class_path == system_class_path,
            r.service_class_path == service_class_path,
            r.lib_path == lib_path,
            r.log_config_path == log_config_path,
    {
        JvmConfig { user_parameters, system_class_path, service_class_path, lib_path, log_config_path }
    }

    /// The key the assembled JVM configuration is stored under among the
    /// services' secret configurations.
    pub fn jvm_config_key() -> (r: String)
        ensures
            r@ == "ejb_jvm_config"@,
    {
        "ejb_jvm_config".to_string()
    }
}

impl Finalize {
    /// The arguments this command accepts: the service module name and the
    /// service HTTP port, both required.
    pub fn args() -> (r: Vec<Argument>)
        ensures
            r@.len() == 2,
            r@[0].name@ == "EJB_MODULE_NAME"@ && r@[0].required && !r@[0].multiple,
            r@[1].name@ == "EJB_PORT"@ && r@[1].required && !r@[1].multiple,
    {
        let mut r: Vec<Argument> = Vec::new();
        r.push(
            Argument {
                name: "EJB_MODULE_NAME".to_string(),
                required: true,
                help: "A fully-qualified class name of the user service module.".to_string(),
                long_name: "ejb-module-name".to_string(),
                multiple: false,
            },
        );
        r.push(
            Argument {
                name: "EJB_PORT".to_string(),
                required: true,
                help: "A port of the HTTP server for Java services. Must be distinct from the ports the node itself uses.".to_string(),
                long_name: "ejb-port".to_string(),
                multiple: false,
            },
        );
        r
    }

    /// Assemble the full configuration block from the JVM part and the
    /// parsed service arguments.
    pub fn create_config(jvm_config: JvmConfig, module_name: String, port: i32) -> (r: Config)
        ensures
            r.jvm_config == jvm_config,
            r.service_config.module_name == module_name,
            r.service_config.port == port,
    {
        Config { jvm_config, service_config: ServiceConfig { module_name, port } }
    }

    /// The key the full configuration block is stored under in the node's
    /// service configurations.
    pub fn config_key() -> (r: String)
        ensures
            r@ == "ejb"@,
    {
        "ejb".to_string()
    }
}

} // verus!

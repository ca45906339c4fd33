use herdr_services::names::{basename, display_name, is_interpreter, strip_ext};

#[test]
fn executable_paths_with_spaces_keep_the_kernel_name() {
    assert_eq!(
        display_name(
            "Plex Media Server",
            "/Applications/Plex Media Server.app/Contents/MacOS/Plex Media Server"
        ),
        "Plex Media Server"
    );
    assert_eq!(
        display_name(
            "Discord Helper (Renderer)",
            "/Applications/Discord.app/Contents/Frameworks/Discord Helper (Renderer).app/Contents/MacOS/Discord Helper (Renderer) --type=renderer"
        ),
        "Discord Helper (Renderer)"
    );
    // A plain path still yields its basename.
    assert_eq!(
        display_name("redis-server", "/opt/homebrew/bin/redis-server"),
        "redis-server"
    );
}

#[test]
fn process_title_rewrites_win() {
    assert_eq!(
        display_name("ruby", "puma 8.0.2 (tcp://0.0.0.0:3000) [app]"),
        "puma"
    );
    assert_eq!(
        display_name(
            "redis-server",
            "/opt/homebrew/bin/redis-server 127.0.0.1:6379"
        ),
        "redis-server"
    );
}

#[test]
fn interpreters_yield_their_script_or_module() {
    assert_eq!(
        display_name("Python", "python3 -m http.server 8765"),
        "http.server"
    );
    assert_eq!(
        display_name("node", "node /repo/node_modules/.bin/vite --port 5173"),
        "vite"
    );
    assert_eq!(
        display_name("node", "/usr/local/bin/node dist/server.js"),
        "server"
    );
    assert_eq!(
        display_name("ruby", "/usr/bin/ruby bin/rails server"),
        "rails"
    );
    assert_eq!(display_name("ruby", "bundle exec sidekiq"), "sidekiq");
    assert_eq!(display_name("java", "java -jar target/app.jar"), "app");
}

#[test]
fn falls_back_to_comm() {
    assert_eq!(display_name("mystery", ""), "mystery");
    assert_eq!(display_name("node", "node"), "node");
    assert_eq!(display_name("python3", "python3 -u"), "python3");
}

#[test]
fn names_are_taken_apart() {
    assert_eq!(basename("/a/b/c.rb"), "c.rb");
    assert_eq!(basename("c"), "c");
    assert_eq!(strip_ext("server.js"), "server");
    assert_eq!(strip_ext("Makefile"), "Makefile");
    assert!(is_interpreter("python3"));
    assert!(!is_interpreter("puma"));
}

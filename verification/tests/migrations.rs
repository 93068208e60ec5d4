use nimby_graph::migrations::{Migration, MigrationChain};

struct AppendByte {
    from: u32,
    to: u32,
    byte: u8,
}

impl Migration for AppendByte {
    fn source(&self) -> u32 {
        self.from
    }

    fn target(&self) -> u32 {
        self.to
    }

    fn source_version(&self) -> u32 {
        self.from
    }

    fn target_version(&self) -> u32 {
        self.to
    }

    fn migrated(&self, data: &[u8]) -> Result<Vec<u8>, String> {
        self.migrate(data)
    }

    fn migrate(&self, data: &[u8]) -> Result<Vec<u8>, String> {
        let mut v = data.to_vec();
        v.push(self.byte);
        Ok(v)
    }
}

struct Failing;

impl Migration for Failing {
    fn source(&self) -> u32 {
        2
    }

    fn target(&self) -> u32 {
        3
    }

    fn source_version(&self) -> u32 {
        2
    }

    fn target_version(&self) -> u32 {
        3
    }

    fn migrated(&self, data: &[u8]) -> Result<Vec<u8>, String> {
        self.migrate(data)
    }

    fn migrate(&self, _data: &[u8]) -> Result<Vec<u8>, String> {
        Err("broken".to_string())
    }
}

fn chain() -> MigrationChain<AppendByte> {
    let mut c = MigrationChain::new();
    c.add_migration(AppendByte { from: 1, to: 2, byte: b'a' });
    c.add_migration(AppendByte { from: 2, to: 3, byte: b'b' });
    c
}

#[test]
fn test_migrate_same_version_is_identity() {
    assert_eq!(chain().migrate(b"x", 2, 2), Ok(b"x".to_vec()));
}

#[test]
fn test_migrate_applies_steps_in_order() {
    assert_eq!(chain().migrate(b"x", 1, 3), Ok(b"xab".to_vec()));
    assert_eq!(chain().migrate(b"x", 2, 3), Ok(b"xb".to_vec()));
}

#[test]
fn test_migrate_refuses_downgrade() {
    assert_eq!(chain().migrate(b"x", 3, 1), Err("Cannot downgrade from version 3 to 1".to_string()));
}

#[test]
fn test_migrate_missing_step() {
    assert!(chain().migrate(b"x", 1, 4).is_err());
    assert!(chain().migrate(b"x", 0, 2).is_err());
}

#[test]
fn test_migrate_backward_step_is_refused() {
    let mut c = MigrationChain::new();
    c.add_migration(AppendByte { from: 1, to: 1, byte: b'a' });
    assert!(c.migrate(b"x", 1, 2).is_err());
}

#[test]
fn test_migrate_error_is_passed_on() {
    let mut c: MigrationChain<Box<dyn Migration>> = MigrationChain::new();
    c.add_migration(Box::new(AppendByte { from: 1, to: 2, byte: b'a' }));
    c.add_migration(Box::new(Failing));
    assert_eq!(c.migrate(b"x", 1, 3), Err("broken".to_string()));
    assert_eq!(c.migrate(b"x", 1, 2), Ok(b"xa".to_vec()));
}

#[test]
fn test_migrate_error_messages() {
    assert_eq!(chain().migrate(b"x", 1, 4), Err("No migration found from version 3".to_string()));
    assert_eq!(chain().migrate(b"x", 0, 2), Err("No migration found from version 0".to_string()));
    let mut c = MigrationChain::new();
    c.add_migration(AppendByte { from: 1, to: 1, byte: b'a' });
    assert_eq!(c.migrate(b"x", 1, 2), Err("Migration from v1 goes to v1, which is not forward progress".to_string()));
}

#[test]
fn test_migrate_step_past_target_is_refused() {
    let mut c = MigrationChain::new();
    c.add_migration(AppendByte { from: 1, to: 3, byte: b'a' });
    assert_eq!(c.migrate(b"x", 1, 2), Err("Migration from v1 goes to v3, past the target version v2".to_string()));
    assert_eq!(c.migrate(b"x", 1, 3), Ok(b"xa".to_vec()));
}

#[test]
fn test_first_added_migration_wins() {
    let mut c = MigrationChain::new();
    c.add_migration(AppendByte { from: 1, to: 2, byte: b'a' });
    c.add_migration(AppendByte { from: 1, to: 2, byte: b'z' });
    assert_eq!(c.migrate(b"x", 1, 2), Ok(b"xa".to_vec()));
}

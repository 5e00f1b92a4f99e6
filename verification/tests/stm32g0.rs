use esprobe::stm32g0::{
    Error, Stm32G030, CR_LOCK, CR_PER, CR_PG, CR_PNB_MASK, DBGMCU_IDCODE, DEVICE_ID, DHCSR,
    DHCSR_S_HALT, FLASH_BASE, FLASH_BYTES, FLASH_CR, FLASH_KEYR, FLASH_SR, KEY2,
};
use esprobe::swd::{Error as SwdError, WordMemory};

#[derive(Default)]
struct MockMemory {
    flash_control: u32,
    unlocked: bool,
    fail_program_write: bool,
    writes: Vec<(u32, u32)>,
}

impl WordMemory for MockMemory {
    fn read_word(&mut self, address: u32) -> Result<u32, SwdError> {
        Ok(match address {
            DBGMCU_IDCODE => u32::from(DEVICE_ID),
            DHCSR => DHCSR_S_HALT,
            FLASH_CR if self.unlocked => self.flash_control & !CR_LOCK,
            FLASH_CR => self.flash_control | CR_LOCK,
            FLASH_SR => 0,
            _ => u32::MAX,
        })
    }

    fn write_word(&mut self, address: u32, value: u32) -> Result<(), SwdError> {
        self.writes.push((address, value));
        if address == FLASH_KEYR && value == KEY2 {
            self.unlocked = true;
        }
        if address == FLASH_CR {
            self.flash_control = value;
        }
        Ok(())
    }

    fn read_words(&mut self, address: u32, values: &mut [u32]) -> Result<(), SwdError> {
        for (offset, value) in values.iter_mut().enumerate() {
            *value = self.read_word(address + offset as u32 * 4)?;
        }
        Ok(())
    }

    fn write_words(&mut self, address: u32, values: &[u32]) -> Result<(), SwdError> {
        if self.fail_program_write && address >= FLASH_BASE {
            return Err(SwdError::Fault);
        }
        for (offset, value) in values.iter().enumerate() {
            self.write_word(address + offset as u32 * 4, *value)?;
        }
        Ok(())
    }

    fn delay_ms(&mut self, _milliseconds: u16) {}
}

#[test]
fn rejects_images_outside_supported_flash_range_without_touching_target() {
    let mut memory = MockMemory::default();
    let mut target = Stm32G030::new(&mut memory);

    assert_eq!(target.program_and_verify(&[]), Err(Error::Empty));
    assert_eq!(
        target.program_and_verify(&vec![0; FLASH_BYTES + 1]),
        Err(Error::TooLarge)
    );
    assert!(memory.writes.is_empty());
}

#[test]
fn programming_failure_clears_operation_bits_and_relocks_flash() {
    let mut memory = MockMemory {
        fail_program_write: true,
        ..Default::default()
    };
    let mut target = Stm32G030::new(&mut memory);

    assert_eq!(
        target.program_and_verify(&[0x12, 0x34]),
        Err(Error::Transport(SwdError::Fault))
    );
    let final_control = memory
        .writes
        .iter()
        .rev()
        .find_map(|(address, value)| (*address == FLASH_CR).then_some(*value))
        .expect("flash control cleanup write");
    assert_eq!(final_control & (CR_PG | CR_PER | CR_PNB_MASK), 0);
    assert_ne!(final_control & CR_LOCK, 0);
}
